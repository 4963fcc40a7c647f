//! The scan that lists the neighbours of one point in a time-ordered list of
//! points: first walking backwards from the point, then forwards from it,
//! leaving each direction at the first point that is too far away.
use vstd::prelude::*;

verus! {

/// Which half of the scan is being walked.
#[derive(PartialEq, Eq, Structural, Clone, Copy, Debug)]
pub enum State {
    /// Walking backwards through the points before the centre.
    Prefix,
    /// Walking forwards from the centre itself.
    Suffix,
    /// Both directions are finished.
    End,
}

/// Two transitions from any state end the scan.
pub proof fn law_two_transitions_end(s: State)
    ensures
        s.following().following() == State::End,
        State::End.following() == State::End,
{
}

impl State {
    /// The state that follows this one.
    pub open spec fn following(self) -> State {
        match self {
            State::Prefix => State::Suffix,
            _ => State::End,
        }
    }

    /// Moves on to the next half of the scan; `End` stays `End`.
    pub fn transition(&mut self)
        ensures
            *final(self) == old(self).following(),
    {
        *self = match *self {
            State::Prefix => State::Suffix,
            _ => State::End,
        }
    }
}

} // verus!

verus! {

/// The mathematical state of a [`NeighbourScan`].
pub struct ScanState {
    /// The half of the scan being walked.
    pub phase: State,
    /// Index of the point whose neighbours are listed.
    pub centre: int,
    /// Number of points in the list.
    pub len: int,
    /// The backward walk still has the indices `below - 1, ..., 0` to offer.
    pub below: int,
    /// The forward walk offers `above` next.
    pub above: int,
    /// The index offered last and not yet judged.
    pub pending: Option<int>,
    /// How many neighbours the current direction has produced so far.
    pub count: int,
}

impl ScanState {
    /// What every reachable scan state satisfies.
    pub open spec fn wf(self) -> bool {
        &&& 0 <= self.below <= self.centre < self.len
        &&& self.centre <= self.above <= self.len
        &&& self.count >= 0
        &&& self.phase == State::Prefix ==> self.above == self.centre
        &&& self.phase == State::Prefix ==> self.count + (if self.pending is Some { 1int } else { 0 })
            <= self.centre - self.below
        &&& self.phase == State::Suffix ==> self.count + (if self.pending is Some { 1int } else { 0 })
            <= self.above - self.centre
        &&& self.phase == State::End ==> self.count == 0 && self.pending is None
        &&& self.pending matches Some(i) ==> (self.phase == State::Prefix ==> i == self.below)
        &&& self.pending matches Some(i) ==> (self.phase == State::Suffix ==> i == self.above - 1)
    }

    /// Remaining work, which every step of the scan makes smaller.
    pub open spec fn measure(self) -> int {
        match self.phase {
            State::Prefix => self.below + (self.len - self.above) + 2,
            State::Suffix => (self.len - self.above) + 1,
            State::End => 0,
        }
    }
}

/// The state in which a scan around `centre` in a list of `len` points starts.
pub open spec fn scan_start(centre: int, len: int) -> ScanState {
    ScanState {
        phase: State::Prefix,
        centre,
        len,
        below: centre,
        above: centre,
        pending: None,
        count: 0,
    }
}

/// Offering from the forward walk: the next index, or the end of the scan.
pub open spec fn offer_forward(s: ScanState) -> (ScanState, Option<int>) {
    if s.above < s.len {
        (ScanState { above: s.above + 1, pending: Some(s.above), ..s }, Some(s.above))
    } else {
        (ScanState { phase: State::End, pending: None, count: 0, ..s }, None)
    }
}

/// The next index to be judged: the next one of the current direction, or,
/// when that direction has nothing left, the first one of the next.
pub open spec fn offer(s: ScanState) -> (ScanState, Option<int>) {
    match s.phase {
        State::Prefix => if s.below > 0 {
            (ScanState { below: s.below - 1, pending: Some(s.below - 1), ..s }, Some(s.below - 1))
        } else {
            offer_forward(ScanState { phase: State::Suffix, pending: None, count: 0, ..s })
        },
        State::Suffix => offer_forward(s),
        State::End => (ScanState { pending: None, ..s }, None),
    }
}

/// Judging the offered index: within reach it is a neighbour; out of reach it
/// ends the current direction.
pub open spec fn judge(s: ScanState, exceeded: bool) -> (ScanState, Option<int>) {
    match s.pending {
        None => (s, None),
        Some(i) => if !exceeded {
            (ScanState { pending: None, count: s.count + 1, ..s }, Some(i))
        } else {
            (ScanState { phase: s.phase.following(), pending: None, count: 0, ..s }, None)
        },
    }
}

/// Every neighbour that the scan yields from state `s` when the index `i` is
/// out of reach exactly when `out(i)` holds, in the order of yielding.
pub open spec fn yields(s: ScanState, out: spec_fn(int) -> bool) -> Seq<int>
    decreases s.measure(),
    when s.wf()
{
    let (s1, c) = offer(s);
    match c {
        None => Seq::empty(),
        Some(i) => {
            let (s2, r) = judge(s1, out(i));
            match r {
                Some(j) => seq![j] + yields(s2, out),
                None => yields(s2, out),
            }
        },
    }
}

/// The indices `from - 1, from - 2, ...` down to the first one that is out of
/// reach (exclusive) or to index 0 (inclusive).
pub open spec fn backward_run(from: int, out: spec_fn(int) -> bool) -> Seq<int>
    decreases from,
{
    if from <= 0 || out(from - 1) {
        Seq::empty()
    } else {
        seq![from - 1] + backward_run(from - 1, out)
    }
}

/// The indices `from, from + 1, ...` up to the first one that is out of reach
/// (exclusive) or to the end of the list.
pub open spec fn forward_run(from: int, len: int, out: spec_fn(int) -> bool) -> Seq<int>
    decreases len - from,
{
    if from >= len || out(from) {
        Seq::empty()
    } else {
        seq![from] + forward_run(from + 1, len, out)
    }
}

/// An optional index as a mathematical value.
pub open spec fn index_of(r: Option<usize>) -> Option<int> {
    match r {
        Some(i) => Some(i as int),
        None => None,
    }
}

/// Cursor over the neighbours of one point. The caller asks for the next
/// candidate index, decides whether that point is out of reach, and reports
/// the decision; the scan turns that into a neighbour or a change of direction.
pub struct NeighbourScan {
    state: State,
    centre: usize,
    len: usize,
    below: usize,
    above: usize,
    pending: Option<usize>,
    count: usize,
}

impl View for NeighbourScan {
    type V = ScanState;

    closed spec fn view(&self) -> ScanState {
        ScanState {
            phase: self.state,
            centre: self.centre as int,
            len: self.len as int,
            below: self.below as int,
            above: self.above as int,
            pending: index_of(self.pending),
            count: self.count as int,
        }
    }
}

impl NeighbourScan {
    /// Starts the scan around point `centre` of a list of `len` points.
    pub fn new(centre: usize, len: usize) -> (scan: NeighbourScan)
        requires
            centre < len,
        ensures
            scan@ == scan_start(centre as int, len as int),
            scan@.wf(),
    {
        NeighbourScan {
            state: State::Prefix,
            centre,
            len,
            below: centre,
            above: centre,
            pending: None,
            count: 0,
        }
    }

    /// The point whose neighbours are listed.
    pub fn centre(&self) -> (c: usize)
        ensures
            c == self@.centre,
    {
        self.centre
    }

    /// The half of the scan being walked.
    pub fn state(&self) -> (st: State)
        ensures
            st == self@.phase,
    {
        self.state
    }

    /// How many neighbours the current direction has produced so far.
    pub fn count(&self) -> (n: usize)
        ensures
            n == self@.count,
    {
        self.count
    }

    fn offer_forward_exec(&mut self) -> (r: Option<usize>)
        requires
            old(self)@.phase == State::Suffix,
            old(self)@.pending is None,
            old(self)@.wf(),
        ensures
            (final(self)@, index_of(r)) == offer_forward(old(self)@),
            final(self)@.wf(),
    {
        if self.above < self.len {
            let i = self.above;
            self.above = self.above + 1;
            self.pending = Some(i);
            Some(i)
        } else {
            self.pending = None;
            self.count = 0;
            self.state.transition();
            None
        }
    }

    /// The next index to be judged, or `None` when the scan is over.
    pub fn next_candidate(&mut self) -> (r: Option<usize>)
        requires
            old(self)@.wf(),
        ensures
            (final(self)@, index_of(r)) == offer(old(self)@),
            final(self)@.wf(),
    {
        match self.state {
            State::Prefix => {
                if self.below > 0 {
                    let i = self.below - 1;
                    self.below = i;
                    self.pending = Some(i);
                    Some(i)
                } else {
                    self.pending = None;
                    self.count = 0;
                    self.state.transition();
                    self.offer_forward_exec()
                }
            },
            State::Suffix => {
                self.pending = None;
                self.offer_forward_exec()
            },
            State::End => {
                self.pending = None;
                None
            },
        }
    }

    /// Reports whether the candidate offered last is out of reach. Returns it
    /// when it is a neighbour; otherwise its direction is over.
    pub fn report(&mut self, exceeded: bool) -> (r: Option<usize>)
        requires
            old(self)@.wf(),
        ensures
            (final(self)@, index_of(r)) == judge(old(self)@, exceeded),
            final(self)@.wf(),
    {
        match self.pending {
            None => None,
            Some(i) => {
                self.pending = None;
                if !exceeded {
                    self.count = self.count + 1;
                    Some(i)
                } else {
                    self.count = 0;
                    self.state.transition();
                    None
                }
            },
        }
    }
}

} // verus!

verus! {

/// Once the scan is over it offers nothing more and yields nothing more.
pub proof fn law_end_is_final(s: ScanState, out: spec_fn(int) -> bool)
    requires
        s.wf(),
        s.phase == State::End,
    ensures
        offer(s).1 is None,
        offer(s).0.phase == State::End,
        yields(s, out) == Seq::<int>::empty(),
{
}

/// From the forward half, the scan yields the forward run from its position.
proof fn lemma_forward_yields(s: ScanState, out: spec_fn(int) -> bool)
    requires
        s.wf(),
        s.phase == State::Suffix,
        s.pending is None,
    ensures
        yields(s, out) == forward_run(s.above, s.len, out),
    decreases s.len - s.above,
{
    if s.above < s.len {
        let s1 = offer(s).0;
        let s2 = judge(s1, out(s.above)).0;
        if !out(s.above) {
            lemma_forward_yields(s2, out);
        } else {
            law_end_is_final(s2, out);
        }
    }
}

/// From the backward half, the scan yields the rest of the backward run and
/// then the whole forward run from the centre.
proof fn lemma_backward_yields(s: ScanState, out: spec_fn(int) -> bool)
    requires
        s.wf(),
        s.phase == State::Prefix,
        s.pending is None,
    ensures
        yields(s, out) == backward_run(s.below, out) + forward_run(s.centre, s.len, out),
    decreases s.below,
{
    if s.below > 0 {
        let s1 = offer(s).0;
        let s2 = judge(s1, out(s.below - 1)).0;
        if !out(s.below - 1) {
            lemma_backward_yields(s2, out);
            assert(seq![s.below - 1] + (backward_run(s.below - 1, out) + forward_run(s.centre, s.len, out))
                =~= (seq![s.below - 1] + backward_run(s.below - 1, out)) + forward_run(s.centre, s.len, out));
        } else {
            lemma_forward_yields(s2, out);
            assert(backward_run(s.below, out) + forward_run(s.centre, s.len, out)
                =~= forward_run(s.centre, s.len, out));
        }
    } else {
        let t = ScanState { phase: State::Suffix, pending: None, count: 0, ..s };
        lemma_forward_yields(t, out);
        assert(yields(s, out) == yields(t, out));
        assert(backward_run(s.below, out) + forward_run(s.centre, s.len, out)
            =~= forward_run(s.centre, s.len, out));
    }
}

/// The neighbours of point `centre` are, in order, the points just before it
/// walking backwards until the first one out of reach, then the centre and
/// the points after it walking forwards until the first one out of reach.
pub proof fn law_neighbours_are_two_runs(centre: int, len: int, out: spec_fn(int) -> bool)
    requires
        0 <= centre < len,
    ensures
        yields(scan_start(centre, len), out) == backward_run(centre, out) + forward_run(
            centre,
            len,
            out,
        ),
{
    lemma_backward_yields(scan_start(centre, len), out);
}

proof fn lemma_backward_run_bounds(from: int, out: spec_fn(int) -> bool)
    requires
        from >= 0,
    ensures
        backward_run(from, out).len() <= from,
        forall|k: int|
            0 <= k < backward_run(from, out).len() ==> #[trigger] backward_run(from, out)[k] == from
                - 1 - k,
    decreases from,
{
    if from > 0 && !out(from - 1) {
        lemma_backward_run_bounds(from - 1, out);
    }
}

proof fn lemma_forward_run_bounds(from: int, len: int, out: spec_fn(int) -> bool)
    requires
        from <= len,
    ensures
        forward_run(from, len, out).len() <= len - from,
        forall|k: int|
            0 <= k < forward_run(from, len, out).len() ==> #[trigger] forward_run(from, len, out)[k]
                == from + k,
    decreases len - from,
{
    if from < len && !out(from) {
        lemma_forward_run_bounds(from + 1, len, out);
    }
}

/// Every neighbour is an index of the list, and no index is yielded twice.
pub proof fn law_neighbours_distinct_in_range(centre: int, len: int, out: spec_fn(int) -> bool)
    requires
        0 <= centre < len,
    ensures
        forall|k: int|
            0 <= k < yields(scan_start(centre, len), out).len() ==> 0 <= #[trigger] yields(
                scan_start(centre, len),
                out,
            )[k] < len,
        forall|k1: int, k2: int|
            0 <= k1 < k2 < yields(scan_start(centre, len), out).len() ==> yields(
                scan_start(centre, len),
                out,
            )[k1] != yields(scan_start(centre, len), out)[k2],
{
    law_neighbours_are_two_runs(centre, len, out);
    lemma_backward_run_bounds(centre, out);
    lemma_forward_run_bounds(centre, len, out);
    let b = backward_run(centre, out);
    let f = forward_run(centre, len, out);
    let y = yields(scan_start(centre, len), out);
    assert forall|k: int| 0 <= k < y.len() implies 0 <= #[trigger] y[k] < len by {
        if k < b.len() {
            assert(y[k] == b[k]);
        } else {
            assert(y[k] == f[k - b.len()]);
        }
    }
    assert forall|k1: int, k2: int| 0 <= k1 < k2 < y.len() implies y[k1] != y[k2] by {
        if k2 < b.len() {
            assert(y[k1] == b[k1] && y[k2] == b[k2]);
        } else if k1 < b.len() {
            assert(y[k1] == b[k1] && y[k2] == f[k2 - b.len()]);
        } else {
            assert(y[k1] == f[k1 - b.len()] && y[k2] == f[k2 - b.len()]);
        }
    }
}

proof fn lemma_backward_run_members(from: int, out: spec_fn(int) -> bool)
    requires
        from >= 0,
    ensures
        forall|k: int|
            0 <= k < backward_run(from, out).len() ==> !out(#[trigger] backward_run(from, out)[k]),
        forall|i: int|
            0 <= i < from && (forall|j: int| #![trigger out(j)] i <= j < from ==> !out(j)) ==> backward_run(
                from,
                out,
            ).contains(i),
    decreases from,
{
    lemma_backward_run_bounds(from, out);
    if from > 0 && !out(from - 1) {
        lemma_backward_run_members(from - 1, out);
        let b = backward_run(from, out);
        let b1 = backward_run(from - 1, out);
        assert(b == seq![from - 1] + b1);
        assert forall|k: int| 0 <= k < b.len() implies !out(#[trigger] b[k]) by {
            if k > 0 {
                assert(b[k] == b1[k - 1]);
            }
        }
        assert forall|i: int|
            0 <= i < from && (forall|j: int| #![trigger out(j)] i <= j < from ==> !out(j)) implies b.contains(i) by {
            if i == from - 1 {
                assert(b[0] == i);
            } else {
                assert(forall|j: int| #![trigger out(j)] i <= j < from - 1 ==> !out(j));
                assert(b1.contains(i));
                let k = choose|k: int| 0 <= k < b1.len() && b1[k] == i;
                assert(b[k + 1] == i);
            }
        }
    }
}

proof fn lemma_forward_run_members(from: int, len: int, out: spec_fn(int) -> bool)
    requires
        from <= len,
    ensures
        forall|k: int|
            0 <= k < forward_run(from, len, out).len() ==> !out(
                #[trigger] forward_run(from, len, out)[k],
            ),
        forall|i: int|
            from <= i < len && (forall|j: int| #![trigger out(j)] from <= j <= i ==> !out(j)) ==> forward_run(
                from,
                len,
                out,
            ).contains(i),
    decreases len - from,
{
    lemma_forward_run_bounds(from, len, out);
    if from < len && !out(from) {
        lemma_forward_run_members(from + 1, len, out);
        let f = forward_run(from, len, out);
        let f1 = forward_run(from + 1, len, out);
        assert(f == seq![from] + f1);
        assert forall|k: int| 0 <= k < f.len() implies !out(#[trigger] f[k]) by {
            if k > 0 {
                assert(f[k] == f1[k - 1]);
            }
        }
        assert forall|i: int|
            from <= i < len && (forall|j: int| #![trigger out(j)] from <= j <= i ==> !out(j)) implies f.contains(i) by {
            if i == from {
                assert(f[0] == i);
            } else {
                assert(forall|j: int| #![trigger out(j)] from + 1 <= j <= i ==> !out(j));
                assert(f1.contains(i));
                let k = choose|k: int| 0 <= k < f1.len() && f1[k] == i;
                assert(f[k + 1] == i);
            }
        }
    }
}

/// Only points within reach are neighbours.
pub proof fn law_neighbours_are_within_reach(centre: int, len: int, out: spec_fn(int) -> bool)
    requires
        0 <= centre < len,
    ensures
        forall|k: int|
            0 <= k < yields(scan_start(centre, len), out).len() ==> !out(
                #[trigger] yields(scan_start(centre, len), out)[k],
            ),
{
    law_neighbours_are_two_runs(centre, len, out);
    lemma_backward_run_members(centre, out);
    lemma_forward_run_members(centre, len, out);
    let b = backward_run(centre, out);
    let f = forward_run(centre, len, out);
    let y = yields(scan_start(centre, len), out);
    assert forall|k: int| 0 <= k < y.len() implies !out(#[trigger] y[k]) by {
        if k < b.len() {
            assert(y[k] == b[k]);
        } else {
            assert(y[k] == f[k - b.len()]);
        }
    }
}

/// A point within reach of itself is its own neighbour (as DBSCAN expects of
/// a region query).
pub proof fn law_centre_is_own_neighbour(centre: int, len: int, out: spec_fn(int) -> bool)
    requires
        0 <= centre < len,
        !out(centre),
    ensures
        yields(scan_start(centre, len), out).contains(centre),
{
    law_neighbours_are_two_runs(centre, len, out);
    let b = backward_run(centre, out);
    let f = forward_run(centre, len, out);
    assert(f[0] == centre);
    assert((b + f)[b.len() as int] == centre);
}

/// When being out of reach only grows walking away from the centre in either
/// direction (as the time-ordered points and the time lower bound of the
/// distance make it), the scan finds exactly the points within reach.
pub proof fn law_monotone_reach_finds_all(centre: int, len: int, out: spec_fn(int) -> bool)
    requires
        0 <= centre < len,
        forall|i: int, j: int| #![trigger out(i), out(j)] 0 <= i < j < centre && out(j) ==> out(i),
        forall|i: int, j: int| #![trigger out(i), out(j)] centre <= i < j < len && out(i) ==> out(j),
    ensures
        forall|i: int|
            0 <= i < len ==> (yields(scan_start(centre, len), out).contains(i) <==> !out(i)),
{
    law_neighbours_are_two_runs(centre, len, out);
    law_neighbours_are_within_reach(centre, len, out);
    lemma_backward_run_members(centre, out);
    lemma_forward_run_members(centre, len, out);
    let b = backward_run(centre, out);
    let f = forward_run(centre, len, out);
    let y = yields(scan_start(centre, len), out);
    assert forall|i: int| 0 <= i < len implies (y.contains(i) <==> !out(i)) by {
        if y.contains(i) {
            let k = choose|k: int| 0 <= k < y.len() && y[k] == i;
            assert(!out(y[k]));
        }
        if !out(i) {
            if i < centre {
                assert forall|j: int| #![trigger out(j)] i <= j < centre implies !out(j) by {
                    if out(j) && i < j {
                        assert(out(i));
                    }
                }
                assert(b.contains(i));
                let k = choose|k: int| 0 <= k < b.len() && b[k] == i;
                assert(y == b + f);
                assert((b + f)[k] == b[k]);
                assert(y.contains(i));
            } else {
                assert forall|j: int| #![trigger out(j)] centre <= j <= i implies !out(j) by {
                    if out(j) && j < i {
                        assert(out(i));
                    }
                }
                assert(f.contains(i));
                let k = choose|k: int| 0 <= k < f.len() && f[k] == i;
                assert(y == b + f);
                assert((b + f)[b.len() + k] == f[k]);
                assert(y.contains(i));
            }
        }
    }
}

/// How many indices the scan may still offer from state `s`.
pub open spec fn remaining(s: ScanState) -> int {
    match s.phase {
        State::Prefix => s.below + (s.len - s.above),
        State::Suffix => s.len - s.above,
        State::End => 0,
    }
}

/// The scan does bounded work: it starts with one offer for each point of
/// the list, every index it offers uses one of them up, judging an index
/// never adds one, and once it offers nothing it is over. So a scan offers
/// at most `len` indices (at most `len` distances are judged) and, with one
/// further call, reports its end.
pub proof fn law_scan_work_is_bounded(s: ScanState, exceeded: bool, centre: int, len: int)
    requires
        s.wf(),
        0 <= centre < len,
    ensures
        remaining(scan_start(centre, len)) == len,
        remaining(s) >= 0,
        offer(s).1 is Some ==> remaining(offer(s).0) == remaining(s) - 1,
        offer(s).1 is None ==> offer(s).0.phase == State::End && remaining(offer(s).0) == 0,
        remaining(judge(s, exceeded).0) <= remaining(s),
{
}

} // verus!
