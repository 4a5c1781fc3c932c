//! Bypass strategies.
//!
//! A [`Strategy`] decides *how* the first chunk of client traffic (the TLS
//! ClientHello) is written to the upstream socket.  All strategies here are
//! userspace-only: they control TCP segmentation and timing.  A strategy
//! answers with a plan of [`SendStep`]s, writes of ranges of the payload and
//! pauses between them, which the caller carries out on its socket.  Every
//! plan delivers the payload unchanged and in order.

use vstd::prelude::*;

use crate::clienthello::{
    client_hello_record, extension_list, find_sni_split_offset, host_name_start, lemma_hello_lengths,
    lemma_sni_offset_of_any_hello, lemma_split_offset_inside_built_hostname, other_extensions,
    sni_extension, sni_split_offset, tls_client_hello,
};

verus! {

/// One step of delivering the first client payload upstream.
#[derive(Clone, Copy, Debug, PartialEq, Eq, Structural)]
pub enum SendStep {
    /// Write the bytes `data[start..end]` of the payload and flush the socket.
    Write { start: usize, end: usize },
    /// Sleep for the given number of milliseconds before the next step.
    Pause { millis: u64 },
}

/// The bytes that `steps` write, in order, when carried out on `data`.
pub open spec fn written(steps: Seq<SendStep>, data: Seq<u8>) -> Seq<u8>
    decreases steps.len(),
{
    if steps.len() == 0 {
        seq![]
    } else {
        let rest = written(steps.drop_first(), data);
        match steps[0] {
            SendStep::Write { start, end } => data.subrange(start as int, end as int) + rest,
            SendStep::Pause { .. } => rest,
        }
    }
}

/// Every write of `steps` names a range inside a payload of `len` bytes.
pub open spec fn steps_in_bounds(steps: Seq<SendStep>, len: nat) -> bool {
    forall|i: int|
        0 <= i < steps.len() ==> match #[trigger] steps[i] {
            SendStep::Write { start, end } => start <= end <= len,
            SendStep::Pause { .. } => true,
        }
}

/// A plan delivers `data` when all its writes are in range and, taken in
/// order, they write exactly `data`.
pub open spec fn delivers(steps: Seq<SendStep>, data: Seq<u8>) -> bool {
    &&& steps_in_bounds(steps, data.len())
    &&& written(steps, data) == data
}

/// The plan that writes the given consecutive `parts` of a payload: each
/// non-empty part is written and, unless it is the last part and when
/// `delay` is not zero, followed by a pause of `delay` milliseconds.  Empty
/// parts are skipped together with their pause.
pub open spec fn segment_plan(parts: Seq<(usize, usize)>, delay: u64) -> Seq<SendStep>
    decreases parts.len(),
{
    if parts.len() == 0 {
        seq![]
    } else {
        let (start, end) = parts[0];
        let rest = segment_plan(parts.drop_first(), delay);
        if start == end {
            rest
        } else if parts.len() > 1 && delay != 0 {
            seq![SendStep::Write { start, end }, SendStep::Pause { millis: delay }] + rest
        } else {
            seq![SendStep::Write { start, end }] + rest
        }
    }
}

/// `parts` cover `from..to` of a payload of `len` bytes, consecutively.
pub open spec fn covers(parts: Seq<(usize, usize)>, from: int, to: int) -> bool
    decreases parts.len(),
{
    if parts.len() == 0 {
        from == to
    } else {
        &&& parts[0].0 == from
        &&& from <= parts[0].1
        &&& covers(parts.drop_first(), parts[0].1 as int, to)
    }
}

proof fn lemma_written_append(a: Seq<SendStep>, b: Seq<SendStep>, data: Seq<u8>)
    ensures
        written(a + b, data) == written(a, data) + written(b, data),
    decreases a.len(),
{
    if a.len() == 0 {
        assert(a + b =~= b);
    } else {
        assert((a + b).drop_first() =~= a.drop_first() + b);
        lemma_written_append(a.drop_first(), b, data);
        assert(written(a + b, data) =~= written(a, data) + written(b, data));
    }
}

/// The plan of consecutive parts writes exactly the bytes they cover.
pub proof fn lemma_segment_plan_delivers(
    parts: Seq<(usize, usize)>,
    delay: u64,
    data: Seq<u8>,
    from: int,
    to: int,
)
    requires
        covers(parts, from, to),
        0 <= from,
        to <= data.len(),
    ensures
        written(segment_plan(parts, delay), data) == data.subrange(from, to),
        steps_in_bounds(segment_plan(parts, delay), data.len()),
    decreases parts.len(),
{
    if parts.len() == 0 {
        assert(data.subrange(from, to) =~= Seq::<u8>::empty());
    } else {
        let (start, end) = parts[0];
        let rest = segment_plan(parts.drop_first(), delay);
        lemma_covers_bounds(parts.drop_first(), end as int, to);
        lemma_segment_plan_delivers(parts.drop_first(), delay, data, end as int, to);
        let w = seq![SendStep::Write { start, end }];
        let wp = seq![SendStep::Write { start, end }, SendStep::Pause { millis: delay }];
        if start == end {
            assert(data.subrange(from, to) =~= data.subrange(end as int, to));
        } else if parts.len() > 1 && delay != 0 {
            lemma_written_append(wp, rest, data);
            assert(written(wp, data) =~= data.subrange(start as int, end as int)) by {
                assert(wp.drop_first().drop_first() =~= Seq::<SendStep>::empty());
                assert(written(wp.drop_first().drop_first(), data) =~= Seq::<u8>::empty());
                assert(written(wp.drop_first(), data) =~= Seq::<u8>::empty());
            }
            assert(data.subrange(from, to) =~= data.subrange(start as int, end as int)
                + data.subrange(end as int, to));
        } else {
            lemma_written_append(w, rest, data);
            assert(written(w, data) =~= data.subrange(start as int, end as int)) by {
                assert(w.drop_first() =~= Seq::<SendStep>::empty());
                assert(written(w.drop_first(), data) =~= Seq::<u8>::empty());
            }
            assert(data.subrange(from, to) =~= data.subrange(start as int, end as int)
                + data.subrange(end as int, to));
        }
    }
}

proof fn lemma_covers_bounds(parts: Seq<(usize, usize)>, from: int, to: int)
    requires
        covers(parts, from, to),
    ensures
        from <= to,
    decreases parts.len(),
{
    if parts.len() > 0 {
        lemma_covers_bounds(parts.drop_first(), parts[0].1 as int, to);
    }
}

/// Turn consecutive parts of a payload into the steps that write them: one
/// write of each non-empty part, in order, followed by a pause of `delay_ms`
/// unless it is the last part or the delay is zero (see [`segment_plan`]).
pub fn segment_steps(parts: &Vec<(usize, usize)>, delay_ms: u64) -> (steps: Vec<SendStep>)
    ensures
        steps@ == segment_plan(parts@, delay_ms),
{
    let mut steps: Vec<SendStep> = Vec::new();
    let mut i: usize = 0;
    assert(parts@.subrange(0, parts@.len() as int) =~= parts@);
    assert(steps@ + segment_plan(parts@, delay_ms) =~= segment_plan(parts@, delay_ms));
    while i < parts.len()
        invariant
            i <= parts@.len(),
            steps@ + segment_plan(parts@.subrange(i as int, parts@.len() as int), delay_ms)
                == segment_plan(parts@, delay_ms),
        decreases parts@.len() - i,
    {
        let ghost cur = parts@.subrange(i as int, parts@.len() as int);
        let ghost next = parts@.subrange(i + 1, parts@.len() as int);
        let ghost before = steps@;
        assert(cur.drop_first() =~= next);
        assert(cur[0] == parts@[i as int]);
        let (start, end) = parts[i];
        if start != end {
            steps.push(SendStep::Write { start, end });
            if i + 1 < parts.len() && delay_ms != 0 {
                steps.push(SendStep::Pause { millis: delay_ms });
            }
        }
        i = i + 1;
        assert(steps@ + segment_plan(next, delay_ms) =~= before + segment_plan(cur, delay_ms));
    }
    assert(parts@.subrange(i as int, parts@.len() as int) =~= Seq::<(usize, usize)>::empty());
    assert(steps@ + Seq::<SendStep>::empty() =~= steps@);
    steps
}

/// How the initial ClientHello is delivered to the upstream server.
///
/// Every strategy answers with a plan that delivers the payload exactly: its
/// writes, in order, are the payload.
pub trait Strategy {
    /// The stable identifier of the strategy.
    spec fn spec_name(&self) -> Seq<char>;

    /// The one-line description of the strategy.
    spec fn spec_description(&self) -> Seq<char>;

    /// Whether the strategy can plan a payload of `len` bytes.
    spec fn admits(&self, len: nat) -> bool;

    /// The plan for the payload `data`.
    spec fn spec_steps(&self, data: Seq<u8>) -> Seq<SendStep>;

    /// Short stable identifier, used in config files and CLI output.
    fn name(&self) -> (name: &str)
        ensures
            name@ == self.spec_name(),
    ;

    /// One-line human description.
    fn description(&self) -> (text: &str)
        ensures
            text@ == self.spec_description(),
    ;

    /// Whether a payload of `len` bytes can be planned.
    fn accepts_len(&self, len: usize) -> (ok: bool)
        ensures
            ok == self.admits(len as nat),
    ;

    /// How to write `data` (the first client payload) to the upstream socket.
    fn initial_steps(&self, data: &[u8]) -> (steps: Vec<SendStep>)
        requires
            self.admits(data@.len()),
        ensures
            steps@ == self.spec_steps(data@),
            delivers(steps@, data@),
    ;
}

/// The two parts `0..cut` and `cut..len` of a payload.
pub open spec fn two_parts(cut: int, len: int) -> Seq<(usize, usize)> {
    seq![(0usize, cut as usize), (cut as usize, len as usize)]
}

proof fn lemma_two_parts_deliver(cut: int, delay: u64, data: Seq<u8>)
    requires
        0 <= cut <= data.len(),
        data.len() <= usize::MAX,
    ensures
        delivers(segment_plan(two_parts(cut, data.len() as int), delay), data),
{
    let parts = two_parts(cut, data.len() as int);
    let rest = parts.drop_first();
    assert(rest[0] == (cut as usize, data.len() as usize));
    assert(rest.drop_first() =~= Seq::<(usize, usize)>::empty());
    assert(covers(rest.drop_first(), data.len() as int, data.len() as int));
    assert(covers(rest, cut, data.len() as int));
    assert(covers(parts, 0, data.len() as int));
    lemma_segment_plan_delivers(parts, delay, data, 0, data.len() as int);
    assert(data.subrange(0, data.len() as int) =~= data);
}

fn two_part_steps(cut: usize, len: usize, delay_ms: u64) -> (steps: Vec<SendStep>)
    requires
        cut <= len,
    ensures
        steps@ == segment_plan(two_parts(cut as int, len as int), delay_ms),
{
    let mut parts: Vec<(usize, usize)> = Vec::new();
    parts.push((0, cut));
    parts.push((cut, len));
    assert(parts@ =~= two_parts(cut as int, len as int));
    segment_steps(&parts, delay_ms)
}

/// Baseline: write everything in one go.  Used as the control in tuning.
#[derive(Clone, Copy, Debug, PartialEq, Eq, Structural)]
pub struct Direct;

impl Strategy for Direct {
    open spec fn spec_name(&self) -> Seq<char> {
        "direct"@
    }

    open spec fn spec_description(&self) -> Seq<char> {
        "No manipulation (baseline / control)"@
    }

    open spec fn admits(&self, len: nat) -> bool {
        true
    }

    open spec fn spec_steps(&self, data: Seq<u8>) -> Seq<SendStep> {
        seq![SendStep::Write { start: 0, end: data.len() as usize }]
    }

    fn name(&self) -> (name: &str) {
        "direct"
    }

    fn description(&self) -> (text: &str) {
        "No manipulation (baseline / control)"
    }

    fn accepts_len(&self, len: usize) -> (ok: bool) {
        true
    }

    fn initial_steps(&self, data: &[u8]) -> (steps: Vec<SendStep>) {
        let mut steps: Vec<SendStep> = Vec::new();
        steps.push(SendStep::Write { start: 0, end: data.len() });
        proof {
            let st = steps@;
            assert(st.drop_first() =~= Seq::<SendStep>::empty());
            assert(written(st.drop_first(), data@) =~= Seq::<u8>::empty());
            assert(data@.subrange(0, data@.len() as int) =~= data@);
            assert(written(st, data@) =~= data@);
        }
        steps
    }
}

/// Split the ClientHello at a fixed byte offset into two TCP segments.
#[derive(Debug)]
pub struct SplitAtOffset {
    pub id: String,
    pub offset: usize,
    /// Pause between the segments, in milliseconds.
    pub delay_ms: u64,
}

impl Strategy for SplitAtOffset {
    open spec fn spec_name(&self) -> Seq<char> {
        self.id@
    }

    open spec fn spec_description(&self) -> Seq<char> {
        "Split ClientHello at a fixed byte offset"@
    }

    open spec fn admits(&self, len: nat) -> bool {
        true
    }

    /// The payload cut at `offset` (or kept whole when it is shorter).
    open spec fn spec_steps(&self, data: Seq<u8>) -> Seq<SendStep> {
        let cut = if self.offset < data.len() {
            self.offset as int
        } else {
            data.len() as int
        };
        segment_plan(two_parts(cut, data.len() as int), self.delay_ms)
    }

    fn name(&self) -> (name: &str) {
        self.id.as_str()
    }

    fn description(&self) -> (text: &str) {
        "Split ClientHello at a fixed byte offset"
    }

    fn accepts_len(&self, len: usize) -> (ok: bool) {
        true
    }

    fn initial_steps(&self, data: &[u8]) -> (steps: Vec<SendStep>) {
        let off = if self.offset < data.len() {
            self.offset
        } else {
            data.len()
        };
        proof {
            lemma_two_parts_deliver(off as int, self.delay_ms, data@);
        }
        two_part_steps(off, data.len(), self.delay_ms)
    }
}

/// Where [`SplitAtSni`] cuts `data`: inside the SNI host name when one is
/// found, otherwise in the middle of the payload.
pub open spec fn sni_cut(data: Seq<u8>) -> int {
    match sni_split_offset(data) {
        Some(o) => if o < data.len() {
            o
        } else {
            data.len() as int
        },
        None => data.len() as int / 2,
    }
}

/// Split the ClientHello *inside* the SNI host name, so DPI cannot reassemble
/// the SNI from a single segment.  Falls back to a mid-buffer split if no SNI
/// is found.
#[derive(Debug)]
pub struct SplitAtSni {
    pub id: String,
    /// Pause between the segments, in milliseconds.
    pub delay_ms: u64,
}

impl Strategy for SplitAtSni {
    open spec fn spec_name(&self) -> Seq<char> {
        self.id@
    }

    open spec fn spec_description(&self) -> Seq<char> {
        "Split inside the SNI hostname"@
    }

    /// Payloads are slices, so their length stays below `isize::MAX`.
    open spec fn admits(&self, len: nat) -> bool {
        len <= isize::MAX
    }

    open spec fn spec_steps(&self, data: Seq<u8>) -> Seq<SendStep> {
        segment_plan(two_parts(sni_cut(data), data.len() as int), self.delay_ms)
    }

    fn name(&self) -> (name: &str) {
        self.id.as_str()
    }

    fn description(&self) -> (text: &str) {
        "Split inside the SNI hostname"
    }

    fn accepts_len(&self, len: usize) -> (ok: bool) {
        len <= isize::MAX as usize
    }

    fn initial_steps(&self, data: &[u8]) -> (steps: Vec<SendStep>) {
        let found = find_sni_split_offset(data);
        let guess = match found {
            Some(o) => o,
            None => data.len() / 2,
        };
        let off = if guess < data.len() {
            guess
        } else {
            data.len()
        };
        assert(off == sni_cut(data@));
        proof {
            lemma_two_parts_deliver(off as int, self.delay_ms, data@);
        }
        two_part_steps(off, data.len(), self.delay_ms)
    }
}

/// The chunk size of a [`MultiSplit`] into `parts` pieces: the payload length
/// divided by the number of pieces (at least one), rounded up.
pub open spec fn chunk_size(len: int, parts: int) -> int {
    let n = if parts < 1 {
        1
    } else {
        parts
    };
    (len + n - 1) / n
}

/// The number of pieces of a [`MultiSplit`]: `parts`, at least one.
pub open spec fn piece_count(parts: int) -> int {
    if parts < 1 {
        1
    } else {
        parts
    }
}

/// The size of the next segment that starts at `from`, when `left` segments
/// (at least one) are still to be cut from a payload of `len` bytes: a full
/// chunk of `step` bytes, cut shorter so that every later segment still gets
/// a byte; one byte when there are fewer bytes left than segments.
pub open spec fn segment_size(from: int, len: int, step: int, left: int) -> int {
    let room = len - from - (left - 1);
    if room < 1 {
        1
    } else if step < room {
        step
    } else {
        room
    }
}

/// The consecutive segments of a payload of `len` bytes from `from` on, with
/// `left` segments still to be cut (see [`segment_size`]).
pub open spec fn spread_parts(from: int, len: int, step: int, left: int) -> Seq<(usize, usize)>
    decreases left,
{
    if from < len && left > 0 {
        let end = from + segment_size(from, len, step, left);
        seq![(from as usize, end as usize)] + spread_parts(end, len, step, left - 1)
    } else {
        seq![]
    }
}

/// The segments cover the payload from `from` on, as long as `left` chunks
/// of `step` bytes reach its end.
proof fn lemma_spread_parts_cover(from: int, len: int, step: int, left: int)
    requires
        0 <= from <= len <= usize::MAX,
        step >= 1,
        left >= 0,
        len - from <= left * step,
    ensures
        covers(spread_parts(from, len, step, left), from, len),
    decreases left,
{
    if from < len && left > 0 {
        let size = segment_size(from, len, step, left);
        let end = from + size;
        assert((left - 1) * step == left * step - step) by (nonlinear_arith);
        assert(left - 1 <= (left - 1) * step) by (nonlinear_arith)
            requires
                left >= 1,
                step >= 1,
        ;
        lemma_spread_parts_cover(end, len, step, left - 1);
        let parts = spread_parts(from, len, step, left);
        assert(parts.drop_first() =~= spread_parts(end, len, step, left - 1));
    } else if left == 0 {
        assert(len - from <= 0) by (nonlinear_arith)
            requires
                left == 0,
                len - from <= left * step,
        ;
    }
}

/// Every segment is non-empty and at most `step` bytes long; there are at
/// most `left` segments, and exactly `left` when the payload has at least
/// `left` bytes from `from` on.
pub proof fn lemma_spread_parts_shape(from: int, len: int, step: int, left: int)
    requires
        0 <= from <= len <= usize::MAX,
        step >= 1,
        left >= 0,
    ensures
        spread_parts(from, len, step, left).len() <= left,
        len - from >= left ==> spread_parts(from, len, step, left).len() == left,
        forall|i: int|
            0 <= i < spread_parts(from, len, step, left).len() ==> {
                let (s, e) = #[trigger] spread_parts(from, len, step, left)[i];
                s < e && e - s <= step
            },
    decreases left,
{
    if from < len && left > 0 {
        let end = from + segment_size(from, len, step, left);
        lemma_spread_parts_shape(end, len, step, left - 1);
        let parts = spread_parts(from, len, step, left);
        assert(parts.drop_first() =~= spread_parts(end, len, step, left - 1));
        assert forall|i: int| 0 <= i < parts.len() implies {
            let (s, e) = #[trigger] parts[i];
            s < e && e - s <= step
        } by {
            if i > 0 {
                assert(parts[i] == spread_parts(end, len, step, left - 1)[i - 1]);
            }
        }
    }
}

/// A [`MultiSplit`] into `parts` pieces cuts a non-empty payload into
/// non-empty segments of at most [`chunk_size`] bytes: exactly
/// `max(parts, 1)` of them when the payload has at least that many bytes,
/// and one per byte otherwise.  They cover the payload in order.
pub proof fn lemma_multisplit_segments(len: int, parts: int)
    requires
        0 < len <= usize::MAX,
        parts >= 0,
    ensures
        chunk_size(len, parts) > 0,
        piece_count(parts) <= len ==> spread_parts(
            0,
            len,
            chunk_size(len, parts),
            piece_count(parts),
        ).len() == piece_count(parts),
        piece_count(parts) > len ==> spread_parts(
            0,
            len,
            chunk_size(len, parts),
            piece_count(parts),
        ).len() == len,
        forall|i: int|
            0 <= i < spread_parts(0, len, chunk_size(len, parts), piece_count(parts)).len() ==> {
                let (s, e) = #[trigger] spread_parts(
                    0,
                    len,
                    chunk_size(len, parts),
                    piece_count(parts),
                )[i];
                s < e && e - s <= chunk_size(len, parts)
            },
        covers(spread_parts(0, len, chunk_size(len, parts), piece_count(parts)), 0, len),
{
    let n = piece_count(parts);
    let step = chunk_size(len, parts);
    assert(step > 0 && n * step >= len) by (nonlinear_arith)
        requires
            step == (len + n - 1) / n,
            n >= 1,
            len > 0,
    ;
    lemma_spread_parts_shape(0, len, step, n);
    lemma_spread_parts_cover(0, len, step, n);
    if n > len {
        assert(step == 1) by (nonlinear_arith)
            requires
                step == (len + n - 1) / n,
                n > len,
                len > 0,
        ;
        lemma_one_byte_segments(0, len, n);
    }
}

/// With one-byte chunks and more segments than bytes, every byte is a
/// segment of its own.
proof fn lemma_one_byte_segments(from: int, len: int, left: int)
    requires
        0 <= from <= len <= usize::MAX,
        left >= len - from,
    ensures
        spread_parts(from, len, 1, left).len() == len - from,
    decreases left,
{
    if from < len && left > 0 {
        lemma_one_byte_segments(from + 1, len, left - 1);
    }
}

/// The number of writes of a plan.
pub open spec fn write_count(steps: Seq<SendStep>) -> nat
    decreases steps.len(),
{
    if steps.len() == 0 {
        0
    } else {
        write_count(steps.drop_first()) + match steps[0] {
            SendStep::Write { .. } => 1nat,
            SendStep::Pause { .. } => 0nat,
        }
    }
}

/// A plan of non-empty parts writes each part once.
proof fn lemma_segment_plan_writes(parts: Seq<(usize, usize)>, delay: u64)
    requires
        forall|i: int| 0 <= i < parts.len() ==> (#[trigger] parts[i]).0 != parts[i].1,
    ensures
        write_count(segment_plan(parts, delay)) == parts.len(),
    decreases parts.len(),
{
    if parts.len() > 0 {
        let rest = parts.drop_first();
        assert forall|i: int| 0 <= i < rest.len() implies (#[trigger] rest[i]).0 != rest[i].1 by {
            assert(rest[i] == parts[i + 1]);
        }
        lemma_segment_plan_writes(rest, delay);
        let tail = segment_plan(rest, delay);
        let (start, end) = parts[0];
        let w = SendStep::Write { start, end };
        if parts.len() > 1 && delay != 0 {
            let p2 = seq![SendStep::Pause { millis: delay }] + tail;
            let plan = seq![w, SendStep::Pause { millis: delay }] + tail;
            assert(segment_plan(parts, delay) == plan);
            assert(plan.drop_first() =~= p2);
            assert(p2.drop_first() =~= tail);
            assert(write_count(p2) == write_count(tail));
            assert(write_count(plan) == write_count(p2) + 1);
        } else {
            let plan = seq![w] + tail;
            assert(segment_plan(parts, delay) == plan);
            assert(plan.drop_first() =~= tail);
            assert(write_count(plan) == write_count(tail) + 1);
        }
    }
}

/// A [`MultiSplit`] into `parts` pieces (at least one) writes a payload of at
/// least that many bytes in exactly that many non-empty writes, each at most
/// [`chunk_size`] bytes long, and delivers it unchanged.
pub proof fn lemma_multisplit_piece_count(s: MultiSplit, data: Seq<u8>)
    requires
        1 <= s.parts <= data.len() <= usize::MAX,
    ensures
        write_count(s.spec_steps(data)) == s.parts,
        delivers(s.spec_steps(data), data),
{
    let len = data.len() as int;
    let parts = spread_parts(0, len, chunk_size(len, s.parts as int), piece_count(s.parts as int));
    lemma_multisplit_segments(len, s.parts as int);
    assert forall|i: int| 0 <= i < parts.len() implies (#[trigger] parts[i]).0 != parts[i].1 by {
        let (a, b) = parts[i];
    }
    lemma_segment_plan_writes(parts, s.delay_ms);
    lemma_segment_plan_delivers(parts, s.delay_ms, data, 0, len);
    assert(data.subrange(0, len) =~= data);
}

/// Split the ClientHello into `parts` roughly equal segments: chunks of the
/// payload length divided by `parts` (rounded up), the last ones shortened so
/// that a payload of at least `parts` bytes gives exactly `parts` segments.
#[derive(Debug)]
pub struct MultiSplit {
    pub id: String,
    pub parts: usize,
    /// Pause between the segments, in milliseconds.
    pub delay_ms: u64,
}

impl Strategy for MultiSplit {
    open spec fn spec_name(&self) -> Seq<char> {
        self.id@
    }

    open spec fn spec_description(&self) -> Seq<char> {
        "Split ClientHello into several small segments"@
    }

    /// The rounded-up division `(len + parts - 1) / parts` must not overflow.
    open spec fn admits(&self, len: nat) -> bool {
        len + piece_count(self.parts as int) - 1 <= usize::MAX
    }

    open spec fn spec_steps(&self, data: Seq<u8>) -> Seq<SendStep> {
        segment_plan(
            spread_parts(
                0,
                data.len() as int,
                chunk_size(data.len() as int, self.parts as int),
                piece_count(self.parts as int),
            ),
            self.delay_ms,
        )
    }

    fn name(&self) -> (name: &str) {
        self.id.as_str()
    }

    fn description(&self) -> (text: &str) {
        "Split ClientHello into several small segments"
    }

    fn accepts_len(&self, len: usize) -> (ok: bool) {
        let n = if self.parts < 1 {
            1
        } else {
            self.parts
        };
        len <= usize::MAX - (n - 1)
    }

    fn initial_steps(&self, data: &[u8]) -> (steps: Vec<SendStep>) {
        let n = if self.parts < 1 {
            1
        } else {
            self.parts
        };
        let len = data.len();
        assert(n as int == piece_count(self.parts as int));
        let step = (len + (n - 1)) / n;
        let ghost g_len = len as int;
        assert(step as int == chunk_size(g_len, self.parts as int));
        assert(len > 0 ==> step > 0) by (nonlinear_arith)
            requires
                step as int == (len as int + n as int - 1) / (n as int),
                n >= 1,
        ;
        let mut segs: Vec<(usize, usize)> = Vec::new();
        let mut i: usize = 0;
        let mut left: usize = n;
        while i < len && left > 0
            invariant
                len == data@.len(),
                g_len == len as int,
                i <= len,
                step == chunk_size(g_len, self.parts as int),
                len > 0 ==> step > 0,
                n == piece_count(self.parts as int),
                segs@ + spread_parts(i as int, g_len, step as int, left as int) == spread_parts(
                    0,
                    g_len,
                    step as int,
                    n as int,
                ),
            decreases left,
        {
            let size = if len - i >= left {
                let room = len - i - (left - 1);
                if step < room {
                    step
                } else {
                    room
                }
            } else {
                1
            };
            assert(size as int == segment_size(i as int, g_len, step as int, left as int));
            let end = i + size;
            let ghost before = segs@;
            let ghost cur = spread_parts(i as int, g_len, step as int, left as int);
            assert(cur =~= seq![(i, end)] + spread_parts(
                end as int,
                g_len,
                step as int,
                left - 1,
            ));
            segs.push((i, end));
            i = end;
            left = left - 1;
            assert(segs@ + spread_parts(i as int, g_len, step as int, left as int) =~= before
                + cur);
        }
        assert(spread_parts(i as int, g_len, step as int, left as int) =~= Seq::<
            (usize, usize),
        >::empty());
        assert(segs@ =~= spread_parts(0, g_len, step as int, n as int));
        proof {
            if len > 0 {
                lemma_multisplit_segments(g_len, self.parts as int);
                lemma_segment_plan_delivers(segs@, self.delay_ms, data@, 0, g_len);
            } else {
                assert(segment_plan(segs@, self.delay_ms) =~= Seq::<SendStep>::empty());
                assert(written(segment_plan(segs@, self.delay_ms), data@) =~= Seq::<u8>::empty());
            }
            assert(data@.subrange(0, g_len) =~= data@);
            assert(steps_in_bounds(segment_plan(segs@, self.delay_ms), data@.len()));
            assert(written(segment_plan(segs@, self.delay_ms), data@) == data@);
        }
        segment_steps(&segs, self.delay_ms)
    }
}

/// One strategy of the catalogue, of any of the built-in kinds.
#[derive(Debug)]
pub enum AnyStrategy {
    Direct(Direct),
    SplitAtOffset(SplitAtOffset),
    SplitAtSni(SplitAtSni),
    MultiSplit(MultiSplit),
}

impl Strategy for AnyStrategy {
    open spec fn spec_name(&self) -> Seq<char> {
        match self {
            AnyStrategy::Direct(s) => s.spec_name(),
            AnyStrategy::SplitAtOffset(s) => s.spec_name(),
            AnyStrategy::SplitAtSni(s) => s.spec_name(),
            AnyStrategy::MultiSplit(s) => s.spec_name(),
        }
    }

    open spec fn spec_description(&self) -> Seq<char> {
        match self {
            AnyStrategy::Direct(s) => s.spec_description(),
            AnyStrategy::SplitAtOffset(s) => s.spec_description(),
            AnyStrategy::SplitAtSni(s) => s.spec_description(),
            AnyStrategy::MultiSplit(s) => s.spec_description(),
        }
    }

    open spec fn admits(&self, len: nat) -> bool {
        match self {
            AnyStrategy::Direct(s) => s.admits(len),
            AnyStrategy::SplitAtOffset(s) => s.admits(len),
            AnyStrategy::SplitAtSni(s) => s.admits(len),
            AnyStrategy::MultiSplit(s) => s.admits(len),
        }
    }

    open spec fn spec_steps(&self, data: Seq<u8>) -> Seq<SendStep> {
        match self {
            AnyStrategy::Direct(s) => s.spec_steps(data),
            AnyStrategy::SplitAtOffset(s) => s.spec_steps(data),
            AnyStrategy::SplitAtSni(s) => s.spec_steps(data),
            AnyStrategy::MultiSplit(s) => s.spec_steps(data),
        }
    }

    fn name(&self) -> (name: &str) {
        match self {
            AnyStrategy::Direct(s) => s.name(),
            AnyStrategy::SplitAtOffset(s) => s.name(),
            AnyStrategy::SplitAtSni(s) => s.name(),
            AnyStrategy::MultiSplit(s) => s.name(),
        }
    }

    fn description(&self) -> (text: &str) {
        match self {
            AnyStrategy::Direct(s) => s.description(),
            AnyStrategy::SplitAtOffset(s) => s.description(),
            AnyStrategy::SplitAtSni(s) => s.description(),
            AnyStrategy::MultiSplit(s) => s.description(),
        }
    }

    fn accepts_len(&self, len: usize) -> (ok: bool) {
        match self {
            AnyStrategy::Direct(s) => s.accepts_len(len),
            AnyStrategy::SplitAtOffset(s) => s.accepts_len(len),
            AnyStrategy::SplitAtSni(s) => s.accepts_len(len),
            AnyStrategy::MultiSplit(s) => s.accepts_len(len),
        }
    }

    fn initial_steps(&self, data: &[u8]) -> (steps: Vec<SendStep>) {
        match self {
            AnyStrategy::Direct(s) => s.initial_steps(data),
            AnyStrategy::SplitAtOffset(s) => s.initial_steps(data),
            AnyStrategy::SplitAtSni(s) => s.initial_steps(data),
            AnyStrategy::MultiSplit(s) => s.initial_steps(data),
        }
    }
}

/// The pause of the slow strategies of the catalogue, in milliseconds.
pub const SLOW_DELAY_MS: u64 = 40;

/// The names of the catalogue, in sweep order.
pub open spec fn catalogue_names() -> Seq<Seq<char>> {
    seq![
        "direct"@,
        "split-sni"@,
        "split-sni-slow"@,
        "split-1"@,
        "split-5"@,
        "multisplit-4"@,
        "multisplit-8-slow"@,
    ]
}

/// Entry `i` of the default catalogue is `s`.
pub open spec fn catalogue_entry(i: int, s: AnyStrategy) -> bool {
    if i == 0 {
        s == AnyStrategy::Direct(Direct)
    } else if i == 1 || i == 2 {
        &&& s matches AnyStrategy::SplitAtSni(x)
        &&& x.id@ == catalogue_names()[i]
        &&& x.delay_ms == if i == 1 {
            0
        } else {
            SLOW_DELAY_MS
        }
    } else if i == 3 || i == 4 {
        &&& s matches AnyStrategy::SplitAtOffset(x)
        &&& x.id@ == catalogue_names()[i]
        &&& x.offset == if i == 3 {
            1usize
        } else {
            5
        }
        &&& x.delay_ms == 0
    } else if i == 5 || i == 6 {
        &&& s matches AnyStrategy::MultiSplit(x)
        &&& x.id@ == catalogue_names()[i]
        &&& x.parts == if i == 5 {
            4usize
        } else {
            8
        }
        &&& x.delay_ms == if i == 5 {
            0
        } else {
            SLOW_DELAY_MS
        }
    } else {
        false
    }
}

/// The names of the catalogue are pairwise distinct, so a name picks at most
/// one entry.
pub proof fn lemma_catalogue_names_distinct()
    ensures
        forall|i: int, j: int|
            0 <= i < 7 && 0 <= j < 7 && i != j ==> catalogue_names()[i] != catalogue_names()[j],
{
    reveal_strlit("direct");
    reveal_strlit("split-sni");
    reveal_strlit("split-sni-slow");
    reveal_strlit("split-1");
    reveal_strlit("split-5");
    reveal_strlit("multisplit-4");
    reveal_strlit("multisplit-8-slow");
    let names = catalogue_names();
    assert forall|i: int, j: int|
        0 <= i < 7 && 0 <= j < 7 && i != j implies names[i] != names[j] by {
        if names[i] == names[j] {
            assert(names[i].len() == names[j].len());
            assert(names[i][6] == names[j][6]);
            assert(names[i][9] == names[j][9]);
        }
    }
}

/// The name of catalogue entry `i` is the `i`-th catalogue name.
pub proof fn lemma_catalogue_entry_name(i: int, s: AnyStrategy)
    requires
        catalogue_entry(i, s),
    ensures
        s.spec_name() == catalogue_names()[i],
        0 <= i < 7,
{
}

/// The default catalogue of strategies that the tuner sweeps over.
pub fn default_catalogue() -> (catalogue: Vec<AnyStrategy>)
    ensures
        catalogue@.len() == 7,
        forall|i: int| 0 <= i < 7 ==> catalogue_entry(i, #[trigger] catalogue@[i]),
{
    let mut c: Vec<AnyStrategy> = Vec::new();
    c.push(AnyStrategy::Direct(Direct));
    c.push(AnyStrategy::SplitAtSni(SplitAtSni { id: "split-sni".to_owned(), delay_ms: 0 }));
    c.push(
        AnyStrategy::SplitAtSni(
            SplitAtSni { id: "split-sni-slow".to_owned(), delay_ms: SLOW_DELAY_MS },
        ),
    );
    c.push(
        AnyStrategy::SplitAtOffset(
            SplitAtOffset { id: "split-1".to_owned(), offset: 1, delay_ms: 0 },
        ),
    );
    c.push(
        AnyStrategy::SplitAtOffset(
            SplitAtOffset { id: "split-5".to_owned(), offset: 5, delay_ms: 0 },
        ),
    );
    c.push(
        AnyStrategy::MultiSplit(MultiSplit { id: "multisplit-4".to_owned(), parts: 4, delay_ms: 0 }),
    );
    c.push(
        AnyStrategy::MultiSplit(
            MultiSplit { id: "multisplit-8-slow".to_owned(), parts: 8, delay_ms: SLOW_DELAY_MS },
        ),
    );
    c
}

/// Resolve a strategy by its config name.  Returns `None` for unknown names.
pub fn by_name(name: &str) -> (found: Option<AnyStrategy>)
    ensures
        found matches Some(s) ==> exists|i: int|
            0 <= i < 7 && catalogue_names()[i] == name@ && #[trigger] catalogue_entry(i, s),
        found is None <==> forall|i: int| 0 <= i < 7 ==> catalogue_names()[i] != name@,
        forall|i: int|
            0 <= i < 7 && #[trigger] catalogue_names()[i] == name@ ==> (found matches Some(s)
                && catalogue_entry(i, s)),
{
    proof {
        lemma_catalogue_names_distinct();
    }
    let mut catalogue = default_catalogue();
    let wanted = name.to_owned();
    let ghost entries = catalogue@;
    let mut i: usize = 0;
    while i < catalogue.len()
        invariant
            catalogue@ == entries,
            entries.len() == 7,
            forall|k: int| 0 <= k < 7 ==> catalogue_entry(k, #[trigger] entries[k]),
            wanted@ == name@,
            i <= 7,
            forall|k: int| 0 <= k < i ==> catalogue_names()[k] != name@,
        decreases 7 - i,
    {
        let candidate = catalogue[i].name().to_owned();
        proof {
            lemma_catalogue_entry_name(i as int, entries[i as int]);
        }
        if candidate == wanted {
            let s = catalogue.remove(i);
            proof {
                lemma_catalogue_names_distinct();
                assert forall|j: int|
                    0 <= j < 7 && #[trigger] catalogue_names()[j] == name@ implies catalogue_entry(
                    j,
                    s,
                ) by {
                    if j != i {
                        assert(catalogue_names()[j] != catalogue_names()[i as int]);
                    }
                }
            }
            return Some(s);
        }
        i = i + 1;
    }
    None
}

/// No write of a plan covers the whole byte range `from..to`.
pub open spec fn never_whole(steps: Seq<SendStep>, from: int, to: int) -> bool {
    forall|i: int|
        0 <= i < steps.len() ==> match #[trigger] steps[i] {
            SendStep::Write { start, end } => !(start <= from && to <= end),
            SendStep::Pause { .. } => true,
        }
}

/// The plan of two non-empty parts: write, optional pause, write.
proof fn lemma_two_part_plan(cut: int, len: int, delay: u64)
    requires
        0 < cut < len <= usize::MAX,
    ensures
        segment_plan(two_parts(cut, len), delay) == if delay != 0 {
            seq![
                SendStep::Write { start: 0, end: cut as usize },
                SendStep::Pause { millis: delay },
                SendStep::Write { start: cut as usize, end: len as usize },
            ]
        } else {
            seq![
                SendStep::Write { start: 0, end: cut as usize },
                SendStep::Write { start: cut as usize, end: len as usize },
            ]
        },
{
    let parts = two_parts(cut, len);
    let rest = parts.drop_first();
    assert(rest.drop_first() =~= Seq::<(usize, usize)>::empty());
    assert(segment_plan(rest.drop_first(), delay) =~= Seq::<SendStep>::empty());
    assert(segment_plan(rest, delay) =~= seq![
        SendStep::Write { start: cut as usize, end: len as usize },
    ]);
    if delay != 0 {
        assert(segment_plan(parts, delay) =~= seq![
            SendStep::Write { start: 0, end: cut as usize },
            SendStep::Pause { millis: delay },
            SendStep::Write { start: cut as usize, end: len as usize },
        ]);
    } else {
        assert(segment_plan(parts, delay) =~= seq![
            SendStep::Write { start: 0, end: cut as usize },
            SendStep::Write { start: cut as usize, end: len as usize },
        ]);
    }
}

/// When the SNI cut falls strictly inside `from..to`, no write of a
/// [`SplitAtSni`] plan carries the whole range.
proof fn lemma_split_sni_cut_inside(s: SplitAtSni, data: Seq<u8>, from: int, to: int)
    requires
        from < sni_cut(data) < to <= data.len() <= usize::MAX,
        0 <= from,
    ensures
        never_whole(s.spec_steps(data), from, to),
{
    lemma_two_part_plan(sni_cut(data), data.len() as int, s.delay_ms);
}

/// Splitting a probe ClientHello inside its SNI: the plan of a
/// [`SplitAtSni`] strategy for the record of a host name of at least two
/// bytes has no write that carries the whole host name, which sits at bytes
/// `79..79 + host.len()` of the record.
pub proof fn lemma_split_sni_hides_hostname(s: SplitAtSni, host: Seq<u8>, random: Seq<u8>)
    requires
        random.len() == 32,
        2 <= host.len() <= 65486,
    ensures
        client_hello_record(host, random).subrange(79, 79 + host.len() as int) == host,
        never_whole(s.spec_steps(client_hello_record(host, random)), 79, 79 + host.len() as int),
{
    let r = client_hello_record(host, random);
    lemma_split_offset_inside_built_hostname(host, random);
    lemma_hello_lengths(host, random);
    lemma_split_sni_cut_inside(s, r, 79, 79 + host.len() as int);
}

/// A catalogue strategy plans exactly as the strategy it wraps.
pub proof fn lemma_any_strategy_delegates(s: AnyStrategy, data: Seq<u8>)
    ensures
        match s {
            AnyStrategy::Direct(x) => s.spec_steps(data) == x.spec_steps(data),
            AnyStrategy::SplitAtOffset(x) => s.spec_steps(data) == x.spec_steps(data),
            AnyStrategy::SplitAtSni(x) => s.spec_steps(data) == x.spec_steps(data),
            AnyStrategy::MultiSplit(x) => s.spec_steps(data) == x.spec_steps(data),
        },
        match s {
            AnyStrategy::Direct(x) => s.admits(data.len()) == x.admits(data.len()),
            AnyStrategy::SplitAtOffset(x) => s.admits(data.len()) == x.admits(data.len()),
            AnyStrategy::SplitAtSni(x) => s.admits(data.len()) == x.admits(data.len()),
            AnyStrategy::MultiSplit(x) => s.admits(data.len()) == x.admits(data.len()),
        },
{
}

/// The `split-sni` entries of the catalogue (`split-sni` itself, the
/// strategy a listener gets when it names none, and `split-sni-slow`) never
/// write the whole host name of a probe ClientHello in one segment.
pub proof fn lemma_catalogue_split_sni_hides_hostname(
    i: int,
    s: AnyStrategy,
    host: Seq<u8>,
    random: Seq<u8>,
)
    requires
        i == 1 || i == 2,
        catalogue_entry(i, s),
        random.len() == 32,
        2 <= host.len() <= 65486,
    ensures
        never_whole(s.spec_steps(client_hello_record(host, random)), 79, 79 + host.len() as int),
{
    if let AnyStrategy::SplitAtSni(x) = s {
        lemma_split_sni_hides_hostname(x, host, random);
    }
}

/// The `split-sni` entries of the catalogue never write the whole host name
/// of any client's ClientHello in one segment, whatever its session id,
/// cipher suites, compression methods and other extensions, as long as its
/// first `server_name` extension holds a host name of at least two bytes.
pub proof fn lemma_catalogue_split_sni_hides_any_hostname(
    i: int,
    s: AnyStrategy,
    random: Seq<u8>,
    session_id: Seq<u8>,
    cipher_suites: Seq<u8>,
    compression_methods: Seq<u8>,
    earlier_extensions: Seq<(u16, Seq<u8>)>,
    host: Seq<u8>,
    later_extensions: Seq<u8>,
)
    requires
        i == 1 || i == 2,
        catalogue_entry(i, s),
        random.len() == 32,
        session_id.len() <= 255,
        cipher_suites.len() <= 65535,
        compression_methods.len() <= 255,
        other_extensions(earlier_extensions),
        host.len() >= 2,
        (extension_list(earlier_extensions) + sni_extension(host) + later_extensions).len()
            <= 65535,
    ensures
        ({
            let start = host_name_start(
                session_id.len() as int,
                cipher_suites.len() as int,
                compression_methods.len() as int,
                extension_list(earlier_extensions).len() as int,
            );
            never_whole(
                s.spec_steps(
                    tls_client_hello(
                        random,
                        session_id,
                        cipher_suites,
                        compression_methods,
                        extension_list(earlier_extensions) + sni_extension(host)
                            + later_extensions,
                    ),
                ),
                start,
                start + host.len(),
            )
        }),
{
    let ext = extension_list(earlier_extensions) + sni_extension(host) + later_extensions;
    let record = tls_client_hello(random, session_id, cipher_suites, compression_methods, ext);
    let start = host_name_start(
        session_id.len() as int,
        cipher_suites.len() as int,
        compression_methods.len() as int,
        extension_list(earlier_extensions).len() as int,
    );
    lemma_sni_offset_of_any_hello(
        random,
        session_id,
        cipher_suites,
        compression_methods,
        earlier_extensions,
        host,
        later_extensions,
    );
    crate::clienthello::lemma_tls_client_hello_len(
        random,
        session_id,
        cipher_suites,
        compression_methods,
        ext,
    );
    assert(sni_extension(host).len() == host.len() + 9);
    if let AnyStrategy::SplitAtSni(x) = s {
        lemma_split_sni_cut_inside(x, record, start, start + host.len());
    }
}

} // verus!
