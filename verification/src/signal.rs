//! The reactive value cell and its notification engine.
//!
//! A [`Signal`] holds one current value and an append-only list of
//! subscribers, kept in registration order. Setting the value starts a
//! notification round: the subscriber count is captured at the start of the
//! round, and exactly the subscribers at indices below that bound are
//! invoked, in order, each resolved fresh at its index just before it runs.
//! A subscriber may itself assign to the cell; the nested round then runs to
//! completion before the outer round resumes. Subscribers registered during
//! a round are not invoked in it.
//!
//! A subscriber is a program: a list of [`Cmd`] values, stored in a program
//! table that is passed to [`Signal::set`]. A cell stores table indices, so
//! the table itself is never mutated while a round runs. Rounds are cut off
//! by a caller-supplied budget, since a subscriber that assigns to its own
//! cell recurses without bound; `set` reports whether every round it started
//! ran in full.

use vstd::prelude::*;

verus! {

/// One command of a subscriber program: assign a new value to the cell
/// (which starts a nested notification round), or register one more
/// subscriber, given as an index into the program table.
#[derive(Clone, Copy)]
pub enum Cmd<V> {
    Assign(V),
    Register(usize),
}

impl<V> DeepView for Cmd<V> {
    type V = Cmd<V>;

    open spec fn deep_view(&self) -> Cmd<V> {
        *self
    }
}

/// A record of one subscriber invocation: the notification round that
/// invoked it, and the subscriber's position in the registration order.
#[derive(Clone, Copy, PartialEq, Eq, Structural, Debug)]
pub struct Event {
    pub round: u64,
    pub sub: usize,
}

/// The mathematical state of a cell: the current value and the subscribers'
/// program-table indices, in registration order.
pub struct CellState<V> {
    pub value: V,
    pub subs: Seq<usize>,
}

/// What one run of the notification engine leaves behind: the cell state,
/// the remaining round budget, the next round number, the invocation trace,
/// and whether every round that started ran in full.
pub struct Run<V> {
    pub state: CellState<V>,
    pub budget: nat,
    pub counter: nat,
    pub trace: Seq<Event>,
    pub complete: bool,
}

pub open spec fn min_nat(a: nat, b: nat) -> nat {
    if a <= b {
        a
    } else {
        b
    }
}

/// The program stored at `id`; an index outside the table is an empty
/// program.
pub open spec fn program_at<V>(progs: Seq<Seq<Cmd<V>>>, id: usize) -> Seq<Cmd<V>> {
    if id < progs.len() {
        progs[id as int]
    } else {
        Seq::empty()
    }
}

/// The program of the subscriber at position `i`, resolved against the
/// current subscriber list.
pub open spec fn sub_program<V>(s: CellState<V>, progs: Seq<Seq<Cmd<V>>>, i: nat) -> Seq<Cmd<V>> {
    if i < s.subs.len() {
        program_at(progs, s.subs[i as int])
    } else {
        Seq::empty()
    }
}

/// Assigns `v`, then runs one notification round over the subscribers
/// registered at that moment. Round `counter` is the one this call starts;
/// nested rounds take the numbers after it. A zero budget assigns the value
/// but starts no round, and the run is marked incomplete.
pub open spec fn spec_set<V>(
    s: CellState<V>,
    v: V,
    progs: Seq<Seq<Cmd<V>>>,
    budget: nat,
    counter: nat,
) -> Run<V>
    decreases budget, 0nat, 0nat,
{
    let s1 = CellState { value: v, subs: s.subs };
    if budget == 0 {
        Run { state: s1, budget: 0, counter, trace: Seq::empty(), complete: false }
    } else {
        spec_round(s1, progs, 0, s1.subs.len(), counter, (budget - 1) as nat, counter + 1)
    }
}

/// Runs round `rid` from subscriber `i` up to the bound `n` that was
/// captured when the round began. Each step invokes the subscriber at `i`,
/// runs its program in full (nested rounds included), and only then moves on
/// to `i + 1`.
pub open spec fn spec_round<V>(
    s: CellState<V>,
    progs: Seq<Seq<Cmd<V>>>,
    i: nat,
    n: nat,
    rid: nat,
    budget: nat,
    counter: nat,
) -> Run<V>
    decreases budget, 2nat, if i < n { (n - i) as nat } else { 0nat },
{
    if i >= n {
        Run { state: s, budget, counter, trace: Seq::empty(), complete: true }
    } else {
        let ev = Event { round: rid as u64, sub: i as usize };
        let r1 = spec_cmds(s, progs, sub_program(s, progs, i), budget, counter);
        let r2 = spec_round(
            r1.state,
            progs,
            i + 1,
            n,
            rid,
            min_nat(r1.budget, budget),
            r1.counter,
        );
        Run {
            state: r2.state,
            budget: r2.budget,
            counter: r2.counter,
            trace: seq![ev] + r1.trace + r2.trace,
            complete: r1.complete && r2.complete,
        }
    }
}

/// Runs the commands of one subscriber program, left to right.
pub open spec fn spec_cmds<V>(
    s: CellState<V>,
    progs: Seq<Seq<Cmd<V>>>,
    cmds: Seq<Cmd<V>>,
    budget: nat,
    counter: nat,
) -> Run<V>
    decreases budget, 1nat, cmds.len(),
{
    if cmds.len() == 0 {
        Run { state: s, budget, counter, trace: Seq::empty(), complete: true }
    } else {
        match cmds[0] {
            Cmd::Assign(v) => {
                let r1 = spec_set(s, v, progs, budget, counter);
                let r2 = spec_cmds(
                    r1.state,
                    progs,
                    cmds.drop_first(),
                    min_nat(r1.budget, budget),
                    r1.counter,
                );
                Run {
                    state: r2.state,
                    budget: r2.budget,
                    counter: r2.counter,
                    trace: r1.trace + r2.trace,
                    complete: r1.complete && r2.complete,
                }
            },
            Cmd::Register(p) => {
                spec_cmds(
                    CellState { value: s.value, subs: s.subs.push(p) },
                    progs,
                    cmds.drop_first(),
                    budget,
                    counter,
                )
            },
        }
    }
}

/// A reactive value cell: one current value, and an append-only list of
/// subscribers held as program-table indices, in registration order.
pub struct Signal<V> {
    value: V,
    subs: Vec<usize>,
}

impl<V> View for Signal<V> {
    type V = CellState<V>;

    closed spec fn view(&self) -> CellState<V> {
        CellState { value: self.value, subs: self.subs@ }
    }
}

impl<V: Copy> Signal<V> {
    /// A fresh cell holding `initial`, with no subscribers.
    pub fn new(initial: V) -> (s: Signal<V>)
        ensures
            s@.value == initial,
            s@.subs == Seq::<usize>::empty(),
    {
        Signal { value: initial, subs: Vec::new() }
    }

    /// The current value.
    pub fn get(&self) -> (v: V)
        ensures
            v == self@.value,
    {
        self.value
    }

    /// Appends one subscriber, keeping every earlier one in place.
    pub fn subscribe(&mut self, program: usize)
        ensures
            final(self)@.subs == old(self)@.subs.push(program),
            final(self)@.value == old(self)@.value,
    {
        self.subs.push(program);
    }

    /// Assigns `v` unconditionally and notifies the subscribers: exactly the
    /// engine run `spec_set` describes, with fresh round numbers from 0.
    /// Returns whether every round ran in full within `fuel`.
    pub fn set(
        &mut self,
        v: V,
        progs: &Vec<Vec<Cmd<V>>>,
        fuel: u64,
        trace: &mut Vec<Event>,
    ) -> (complete: bool)
        ensures
            ({
                let run = spec_set(old(self)@, v, progs.deep_view(), fuel as nat, 0);
                &&& final(self)@ == run.state
                &&& final(trace)@ == old(trace)@ + run.trace
                &&& complete == run.complete
            }),
            old(self)@.subs.is_prefix_of(final(self)@.subs),
    {
        let r = self.run_set(v, progs, fuel, 0, trace);
        proof {
            lemma_set_frame(old(self)@, v, progs.deep_view(), fuel as nat, 0);
        }
        r.2
    }

    /// Exec mirror of `spec_set`.
    fn run_set(
        &mut self,
        v: V,
        progs: &Vec<Vec<Cmd<V>>>,
        budget: u64,
        counter: u64,
        trace: &mut Vec<Event>,
    ) -> (r: (u64, u64, bool))
        requires
            counter + budget <= u64::MAX,
        ensures
            ({
                let run = spec_set(old(self)@, v, progs.deep_view(), budget as nat, counter as nat);
                &&& final(self)@ == run.state
                &&& r.0 as nat == run.budget
                &&& r.1 as nat == run.counter
                &&& final(trace)@ == old(trace)@ + run.trace
                &&& r.2 == run.complete
            }),
        decreases budget, 0int, 0int,
    {
        self.value = v;
        if budget == 0 {
            return (0, counter, false);
        }
        let n = self.subs.len();
        self.run_round(progs, 0, n, counter, budget - 1, counter + 1, trace)
    }

    /// Exec mirror of `spec_round`.
    fn run_round(
        &mut self,
        progs: &Vec<Vec<Cmd<V>>>,
        i: usize,
        n: usize,
        rid: u64,
        budget: u64,
        counter: u64,
        trace: &mut Vec<Event>,
    ) -> (r: (u64, u64, bool))
        requires
            counter + budget <= u64::MAX,
            i <= n,
            n <= old(self)@.subs.len(),
        ensures
            ({
                let run = spec_round(
                    old(self)@,
                    progs.deep_view(),
                    i as nat,
                    n as nat,
                    rid as nat,
                    budget as nat,
                    counter as nat,
                );
                &&& final(self)@ == run.state
                &&& r.0 as nat == run.budget
                &&& r.1 as nat == run.counter
                &&& final(trace)@ == old(trace)@ + run.trace
                &&& r.2 == run.complete
            }),
        decreases budget, 2int, n - i,
    {
        if i >= n {
            return (budget, counter, true);
        }
        trace.push(Event { round: rid, sub: i });
        let pid = self.subs[i];
        proof {
            assert(program_at(progs.deep_view(), pid).skip(0) =~= program_at(
                progs.deep_view(),
                pid,
            ));
            assert(sub_program(old(self)@, progs.deep_view(), i as nat) == program_at(
                progs.deep_view(),
                pid,
            ));
        }
        let r1 = self.run_cmds(progs, pid, 0, budget, counter, trace);
        proof {
            lemma_cmds_frame(
                old(self)@,
                progs.deep_view(),
                program_at(progs.deep_view(), pid),
                budget as nat,
                counter as nat,
            );
            assert(old(self)@.subs.len() <= self@.subs.len());
        }
        let b2: u64 = if r1.0 <= budget {
            r1.0
        } else {
            budget
        };
        let r2 = self.run_round(progs, i + 1, n, rid, b2, r1.1, trace);
        (r2.0, r2.1, r1.2 && r2.2)
    }

    /// Exec mirror of `spec_cmds`, walking the program at table index `pid`
    /// from command position `j`.
    fn run_cmds(
        &mut self,
        progs: &Vec<Vec<Cmd<V>>>,
        pid: usize,
        j: usize,
        budget: u64,
        counter: u64,
        trace: &mut Vec<Event>,
    ) -> (r: (u64, u64, bool))
        requires
            counter + budget <= u64::MAX,
            j <= program_at(progs.deep_view(), pid).len(),
        ensures
            ({
                let run = spec_cmds(
                    old(self)@,
                    progs.deep_view(),
                    program_at(progs.deep_view(), pid).skip(j as int),
                    budget as nat,
                    counter as nat,
                );
                &&& final(self)@ == run.state
                &&& r.0 as nat == run.budget
                &&& r.1 as nat == run.counter
                &&& final(trace)@ == old(trace)@ + run.trace
                &&& r.2 == run.complete
            }),
        decreases budget, 1int, program_at(progs.deep_view(), pid).len() - j,
    {
        let ghost prog = program_at(progs.deep_view(), pid);
        if pid >= progs.len() {
            return (budget, counter, true);
        }
        let cmds = &progs[pid];
        if j >= cmds.len() {
            return (budget, counter, true);
        }
        assert(prog =~= progs.deep_view()[pid as int]);
        let cmd = cmds[j];
        assert(prog.skip(j as int)[0] == cmd);
        assert(prog.skip(j as int).drop_first() =~= prog.skip(j as int + 1));
        match cmd {
            Cmd::Assign(v) => {
                let r1 = self.run_set(v, progs, budget, counter, trace);
                proof {
                    lemma_set_frame(
                        old(self)@,
                        v,
                        progs.deep_view(),
                        budget as nat,
                        counter as nat,
                    );
                }
                let b2: u64 = if r1.0 <= budget {
                    r1.0
                } else {
                    budget
                };
                let r2 = self.run_cmds(progs, pid, j + 1, b2, r1.1, trace);
                (r2.0, r2.1, r1.2 && r2.2)
            },
            Cmd::Register(p) => {
                self.subs.push(p);
                self.run_cmds(progs, pid, j + 1, budget, counter, trace)
            },
        }
    }
}

/// A fresh reactive cell holding `initial`.
pub fn use_state<V: Copy>(initial: V) -> (s: Signal<V>)
    ensures
        s@.value == initial,
        s@.subs == Seq::<usize>::empty(),
{
    Signal::new(initial)
}

/// Frame facts about one `spec_set` run: the budget never grows, round
/// numbers are consumed one per unit of budget spent, and the subscriber
/// list only ever grows at the end.
pub proof fn lemma_set_frame<V>(
    s: CellState<V>,
    v: V,
    progs: Seq<Seq<Cmd<V>>>,
    budget: nat,
    counter: nat,
)
    ensures
        ({
            let r = spec_set(s, v, progs, budget, counter);
            &&& r.budget <= budget
            &&& r.counter == counter + (budget - r.budget)
            &&& s.subs.is_prefix_of(r.state.subs)
        }),
    decreases budget, 0nat, 0nat,
{
    let s1 = CellState { value: v, subs: s.subs };
    if budget > 0 {
        lemma_round_frame(s1, progs, 0, s1.subs.len(), counter, (budget - 1) as nat, counter + 1);
    }
}

/// Frame facts about one `spec_round` run; see `lemma_set_frame`.
pub proof fn lemma_round_frame<V>(
    s: CellState<V>,
    progs: Seq<Seq<Cmd<V>>>,
    i: nat,
    n: nat,
    rid: nat,
    budget: nat,
    counter: nat,
)
    ensures
        ({
            let r = spec_round(s, progs, i, n, rid, budget, counter);
            &&& r.budget <= budget
            &&& r.counter == counter + (budget - r.budget)
            &&& s.subs.is_prefix_of(r.state.subs)
        }),
    decreases budget, 2nat, if i < n { (n - i) as nat } else { 0nat },
{
    if i < n {
        let r1 = spec_cmds(s, progs, sub_program(s, progs, i), budget, counter);
        lemma_cmds_frame(s, progs, sub_program(s, progs, i), budget, counter);
        lemma_round_frame(r1.state, progs, i + 1, n, rid, min_nat(r1.budget, budget), r1.counter);
    }
}

/// Frame facts about one `spec_cmds` run; see `lemma_set_frame`.
pub proof fn lemma_cmds_frame<V>(
    s: CellState<V>,
    progs: Seq<Seq<Cmd<V>>>,
    cmds: Seq<Cmd<V>>,
    budget: nat,
    counter: nat,
)
    ensures
        ({
            let r = spec_cmds(s, progs, cmds, budget, counter);
            &&& r.budget <= budget
            &&& r.counter == counter + (budget - r.budget)
            &&& s.subs.is_prefix_of(r.state.subs)
        }),
    decreases budget, 1nat, cmds.len(),
{
    if cmds.len() > 0 {
        match cmds[0] {
            Cmd::Assign(v) => {
                let r1 = spec_set(s, v, progs, budget, counter);
                lemma_set_frame(s, v, progs, budget, counter);
                lemma_cmds_frame(
                    r1.state,
                    progs,
                    cmds.drop_first(),
                    min_nat(r1.budget, budget),
                    r1.counter,
                );
                let r2 = spec_cmds(
                    r1.state,
                    progs,
                    cmds.drop_first(),
                    min_nat(r1.budget, budget),
                    r1.counter,
                );
                assert(s.subs.is_prefix_of(r2.state.subs)) by {
                    assert(s.subs.is_prefix_of(r1.state.subs));
                    assert(r1.state.subs.is_prefix_of(r2.state.subs));
                    assert(s.subs =~= r1.state.subs.take(s.subs.len() as int));
                    assert(r1.state.subs =~= r2.state.subs.take(r1.state.subs.len() as int));
                    assert(s.subs =~= r2.state.subs.take(s.subs.len() as int));
                }
            },
            Cmd::Register(p) => {
                let s2 = CellState { value: s.value, subs: s.subs.push(p) };
                lemma_cmds_frame(s2, progs, cmds.drop_first(), budget, counter);
                let r2 = spec_cmds(s2, progs, cmds.drop_first(), budget, counter);
                assert(s.subs.is_prefix_of(s2.subs)) by {
                    assert(s.subs =~= s2.subs.take(s.subs.len() as int));
                }
                assert(s.subs.is_prefix_of(r2.state.subs)) by {
                    assert(s2.subs.is_prefix_of(r2.state.subs));
                    assert(s.subs =~= s2.subs.take(s.subs.len() as int));
                    assert(s2.subs =~= r2.state.subs.take(s2.subs.len() as int));
                    assert(s.subs =~= r2.state.subs.take(s.subs.len() as int));
                }
            },
        }
    }
}

/// All events in `t` belong to rounds numbered in `[lo, hi)`.
pub open spec fn rounds_within(t: Seq<Event>, lo: nat, hi: nat) -> bool {
    forall|k: int| #![trigger t[k]]
        0 <= k < t.len() ==> (lo <= t[k].round as nat && (t[k].round as nat) < hi)
}

/// All events in `t` belong to round `rid` or to rounds numbered in
/// `[lo, hi)`.
pub open spec fn rounds_within_or(t: Seq<Event>, rid: nat, lo: nat, hi: nat) -> bool {
    forall|k: int| #![trigger t[k]]
        0 <= k < t.len() ==> (t[k].round as nat == rid || (lo <= t[k].round as nat
            && (t[k].round as nat) < hi))
}

/// The rounds a `spec_set` run starts are numbered `counter` and upward,
/// below the counter it returns.
pub proof fn lemma_set_window<V>(
    s: CellState<V>,
    v: V,
    progs: Seq<Seq<Cmd<V>>>,
    budget: nat,
    counter: nat,
)
    requires
        counter + budget <= u64::MAX,
    ensures
        rounds_within(
            spec_set(s, v, progs, budget, counter).trace,
            counter,
            spec_set(s, v, progs, budget, counter).counter,
        ),
    decreases budget, 0nat, 0nat,
{
    if budget > 0 {
        let s1 = CellState { value: v, subs: s.subs };
        lemma_round_window(s1, progs, 0, s1.subs.len(), counter, (budget - 1) as nat, counter + 1);
        lemma_round_frame(s1, progs, 0, s1.subs.len(), counter, (budget - 1) as nat, counter + 1);
    }
}

/// The events of a `spec_round` run belong to the round itself or to the
/// nested rounds it starts, numbered `counter` and upward.
pub proof fn lemma_round_window<V>(
    s: CellState<V>,
    progs: Seq<Seq<Cmd<V>>>,
    i: nat,
    n: nat,
    rid: nat,
    budget: nat,
    counter: nat,
)
    requires
        counter + budget <= u64::MAX,
        rid < counter,
    ensures
        rounds_within_or(
            spec_round(s, progs, i, n, rid, budget, counter).trace,
            rid,
            counter,
            spec_round(s, progs, i, n, rid, budget, counter).counter,
        ),
    decreases budget, 2nat, if i < n { (n - i) as nat } else { 0nat },
{
    if i < n {
        let ev = Event { round: rid as u64, sub: i as usize };
        let prog = sub_program(s, progs, i);
        let r1 = spec_cmds(s, progs, prog, budget, counter);
        let r2 = spec_round(r1.state, progs, i + 1, n, rid, min_nat(r1.budget, budget), r1.counter);
        let r = spec_round(s, progs, i, n, rid, budget, counter);
        lemma_cmds_window(s, progs, prog, budget, counter);
        lemma_cmds_frame(s, progs, prog, budget, counter);
        lemma_round_window(r1.state, progs, i + 1, n, rid, min_nat(r1.budget, budget), r1.counter);
        lemma_round_frame(r1.state, progs, i + 1, n, rid, min_nat(r1.budget, budget), r1.counter);
        assert forall|k: int| #![trigger r.trace[k]] 0 <= k < r.trace.len() implies (r.trace[k].round as nat
            == rid || (counter <= r.trace[k].round as nat && (r.trace[k].round as nat)
            < r.counter)) by {
            if k == 0 {
                assert(r.trace[k] == ev);
            } else if k < 1 + r1.trace.len() {
                assert(r.trace[k] == r1.trace[k - 1]);
            } else {
                assert(r.trace[k] == r2.trace[k - 1 - r1.trace.len()]);
            }
        }
    }
}

/// The events of a `spec_cmds` run belong to rounds numbered `counter` and
/// upward, below the counter it returns.
pub proof fn lemma_cmds_window<V>(
    s: CellState<V>,
    progs: Seq<Seq<Cmd<V>>>,
    cmds: Seq<Cmd<V>>,
    budget: nat,
    counter: nat,
)
    requires
        counter + budget <= u64::MAX,
    ensures
        rounds_within(
            spec_cmds(s, progs, cmds, budget, counter).trace,
            counter,
            spec_cmds(s, progs, cmds, budget, counter).counter,
        ),
    decreases budget, 1nat, cmds.len(),
{
    if cmds.len() > 0 {
        match cmds[0] {
            Cmd::Assign(v) => {
                let r1 = spec_set(s, v, progs, budget, counter);
                let r2 = spec_cmds(
                    r1.state,
                    progs,
                    cmds.drop_first(),
                    min_nat(r1.budget, budget),
                    r1.counter,
                );
                let r = spec_cmds(s, progs, cmds, budget, counter);
                lemma_set_window(s, v, progs, budget, counter);
                lemma_set_frame(s, v, progs, budget, counter);
                lemma_cmds_window(
                    r1.state,
                    progs,
                    cmds.drop_first(),
                    min_nat(r1.budget, budget),
                    r1.counter,
                );
                lemma_cmds_frame(
                    r1.state,
                    progs,
                    cmds.drop_first(),
                    min_nat(r1.budget, budget),
                    r1.counter,
                );
                assert forall|k: int| #![trigger r.trace[k]] 0 <= k < r.trace.len() implies (counter
                    <= r.trace[k].round as nat && (r.trace[k].round as nat) < r.counter) by {
                    if k < r1.trace.len() {
                        assert(r.trace[k] == r1.trace[k]);
                    } else {
                        assert(r.trace[k] == r2.trace[k - r1.trace.len()]);
                    }
                }
            },
            Cmd::Register(p) => {
                let s2 = CellState { value: s.value, subs: s.subs.push(p) };
                lemma_cmds_window(s2, progs, cmds.drop_first(), budget, counter);
            },
        }
    }
}

/// The subsequence of `t` made of the events of round `rid`, in order.
pub open spec fn keep_round(t: Seq<Event>, rid: nat) -> Seq<Event>
    decreases t.len(),
{
    if t.len() == 0 {
        Seq::empty()
    } else if t[0].round as nat == rid {
        seq![t[0]] + keep_round(t.drop_first(), rid)
    } else {
        keep_round(t.drop_first(), rid)
    }
}

/// `keep_round` distributes over concatenation.
pub proof fn lemma_keep_round_add(a: Seq<Event>, b: Seq<Event>, rid: nat)
    ensures
        keep_round(a + b, rid) == keep_round(a, rid) + keep_round(b, rid),
    decreases a.len(),
{
    if a.len() == 0 {
        assert(a + b =~= b);
        assert(keep_round(a, rid) + keep_round(b, rid) =~= keep_round(b, rid));
    } else {
        assert((a + b).drop_first() =~= a.drop_first() + b);
        lemma_keep_round_add(a.drop_first(), b, rid);
        if a[0].round as nat == rid {
            assert(keep_round(a + b, rid) =~= keep_round(a, rid) + keep_round(b, rid));
        }
    }
}

/// A trace without a single event of round `rid` filters to nothing.
pub proof fn lemma_keep_round_empty(t: Seq<Event>, rid: nat)
    requires
        forall|k: int| #![trigger t[k]] 0 <= k < t.len() ==> t[k].round as nat != rid,
    ensures
        keep_round(t, rid) == Seq::<Event>::empty(),
    decreases t.len(),
{
    if t.len() > 0 {
        lemma_keep_round_empty(t.drop_first(), rid);
    }
}

/// Every event of round `rid` in `t` also stands in `keep_round(t, rid)`.
pub proof fn lemma_keep_round_complete(t: Seq<Event>, rid: nat, p: int)
    requires
        0 <= p < t.len(),
        t[p].round as nat == rid,
    ensures
        keep_round(t, rid).contains(t[p]),
    decreases t.len(),
{
    if p == 0 {
        assert(keep_round(t, rid)[0] == t[0]);
    } else {
        lemma_keep_round_complete(t.drop_first(), rid, p - 1);
        let inner = keep_round(t.drop_first(), rid);
        let w = choose|w: int| 0 <= w < inner.len() && inner[w] == t[p];
        if t[0].round as nat == rid {
            assert(keep_round(t, rid)[w + 1] == t[p]);
        }
    }
}

/// The events that round `rid` itself contributes while it runs from
/// subscriber `i` to its bound `n`: the invocations of `i`, `i + 1`, ...,
/// `n - 1`, in that order, each exactly once.
pub proof fn lemma_round_invokes<V>(
    s: CellState<V>,
    progs: Seq<Seq<Cmd<V>>>,
    i: nat,
    n: nat,
    rid: nat,
    budget: nat,
    counter: nat,
)
    requires
        counter + budget <= u64::MAX,
        rid < counter,
        n <= usize::MAX,
    ensures
        keep_round(spec_round(s, progs, i, n, rid, budget, counter).trace, rid) == Seq::new(
            if i < n {
                (n - i) as nat
            } else {
                0
            },
            |k: int| Event { round: rid as u64, sub: (i + k) as usize },
        ),
    decreases budget, 2nat, if i < n { (n - i) as nat } else { 0nat },
{
    let r = spec_round(s, progs, i, n, rid, budget, counter);
    if i >= n {
        assert(keep_round(r.trace, rid) =~= Seq::new(
            0,
            |k: int| Event { round: rid as u64, sub: (i + k) as usize },
        ));
    } else {
        let ev = Event { round: rid as u64, sub: i as usize };
        let prog = sub_program(s, progs, i);
        let r1 = spec_cmds(s, progs, prog, budget, counter);
        let r2 = spec_round(r1.state, progs, i + 1, n, rid, min_nat(r1.budget, budget), r1.counter);
        lemma_cmds_window(s, progs, prog, budget, counter);
        lemma_cmds_frame(s, progs, prog, budget, counter);
        lemma_round_invokes(r1.state, progs, i + 1, n, rid, min_nat(r1.budget, budget), r1.counter);
        lemma_keep_round_add(seq![ev], r1.trace, rid);
        lemma_keep_round_add(seq![ev] + r1.trace, r2.trace, rid);
        lemma_keep_round_empty(r1.trace, rid);
        assert(ev.round as nat == rid);
        assert(seq![ev].drop_first() =~= Seq::<Event>::empty());
        assert(keep_round(Seq::<Event>::empty(), rid) =~= Seq::<Event>::empty());
        assert(keep_round(seq![ev], rid) =~= seq![ev] + Seq::<Event>::empty());
        assert(keep_round(seq![ev], rid) =~= seq![ev]);
        assert(keep_round(r.trace, rid) =~= seq![ev] + keep_round(r2.trace, rid));
        assert(keep_round(r.trace, rid) =~= Seq::new(
            (n - i) as nat,
            |k: int| Event { round: rid as u64, sub: (i + k) as usize },
        ));
    }
}

/// One `set` call invokes, in the round it starts, exactly the subscribers
/// that were registered when the round began: positions `0` to `n - 1` in
/// registration order, each exactly once, whether or not the new value
/// equals the old one. Subscribers registered while the round runs are not
/// invoked in it: every event of the round names a position below `n`.
pub proof fn lemma_set_notifies_in_order<V>(
    s: CellState<V>,
    v: V,
    progs: Seq<Seq<Cmd<V>>>,
    budget: nat,
    counter: nat,
)
    requires
        1 <= budget,
        counter + budget <= u64::MAX,
        s.subs.len() <= usize::MAX,
    ensures
        ({
            let t = spec_set(s, v, progs, budget, counter).trace;
            let n = s.subs.len();
            &&& keep_round(t, counter) == Seq::new(
                n,
                |k: int| Event { round: counter as u64, sub: k as usize },
            )
            &&& forall|p: int| #![trigger t[p]]
                0 <= p < t.len() && t[p].round as nat == counter ==> t[p].sub < n
        }),
{
    let s1 = CellState { value: v, subs: s.subs };
    let n = s.subs.len();
    let t = spec_set(s, v, progs, budget, counter).trace;
    lemma_round_invokes(s1, progs, 0, n, counter, (budget - 1) as nat, counter + 1);
    assert(keep_round(t, counter) == Seq::new(
        n,
        |k: int| Event { round: counter as u64, sub: k as usize },
    ));
    assert forall|p: int| #![trigger t[p]]
        0 <= p < t.len() && t[p].round as nat == counter implies t[p].sub < n by {
        lemma_keep_round_complete(t, counter, p);
        let kept = keep_round(t, counter);
        let w = choose|w: int| 0 <= w < kept.len() && kept[w] == t[p];
        assert(kept[w].sub == w as usize);
    }
}

/// No event of an earlier-numbered round stands between two events of a
/// later-numbered round. Since rounds are numbered in the order they start,
/// this says that once a nested round has begun, it runs to completion
/// before any round that started earlier makes its next step.
pub open spec fn no_outer_between(t: Seq<Event>) -> bool {
    forall|p1: int, p2: int, p3: int|
        #![trigger t[p1], t[p2], t[p3]]
        0 <= p1 < p2 < p3 < t.len() && t[p1].round == t[p3].round ==> t[p2].round >= t[p1].round
}

/// A nested notification round completes all of its own subscriber
/// invocations before the round that triggered it resumes: the trace of one
/// `set` call never shows an earlier round's event between two events of a
/// later round.
pub proof fn lemma_nested_rounds_complete_first<V>(
    s: CellState<V>,
    v: V,
    progs: Seq<Seq<Cmd<V>>>,
    budget: nat,
    counter: nat,
)
    requires
        counter + budget <= u64::MAX,
    ensures
        no_outer_between(spec_set(s, v, progs, budget, counter).trace),
    decreases budget, 0nat, 0nat,
{
    if budget > 0 {
        let s1 = CellState { value: v, subs: s.subs };
        lemma_round_nointer(s1, progs, 0, s1.subs.len(), counter, (budget - 1) as nat, counter + 1);
    }
}

/// See `lemma_nested_rounds_complete_first`: the same claim for the trace
/// of a round in progress.
proof fn lemma_round_nointer<V>(
    s: CellState<V>,
    progs: Seq<Seq<Cmd<V>>>,
    i: nat,
    n: nat,
    rid: nat,
    budget: nat,
    counter: nat,
)
    requires
        counter + budget <= u64::MAX,
        rid < counter,
    ensures
        no_outer_between(spec_round(s, progs, i, n, rid, budget, counter).trace),
    decreases budget, 2nat, if i < n { (n - i) as nat } else { 0nat },
{
    if i < n {
        let ev = Event { round: rid as u64, sub: i as usize };
        let prog = sub_program(s, progs, i);
        let r1 = spec_cmds(s, progs, prog, budget, counter);
        let r2 = spec_round(r1.state, progs, i + 1, n, rid, min_nat(r1.budget, budget), r1.counter);
        let r = spec_round(s, progs, i, n, rid, budget, counter);
        let len1 = r1.trace.len() as int;
        lemma_cmds_frame(s, progs, prog, budget, counter);
        lemma_cmds_window(s, progs, prog, budget, counter);
        lemma_cmds_nointer(s, progs, prog, budget, counter);
        lemma_round_window(r1.state, progs, i + 1, n, rid, min_nat(r1.budget, budget), r1.counter);
        lemma_round_nointer(r1.state, progs, i + 1, n, rid, min_nat(r1.budget, budget), r1.counter);
        assert forall|p1: int, p2: int, p3: int|
            #![trigger r.trace[p1], r.trace[p2], r.trace[p3]]
            0 <= p1 < p2 < p3 < r.trace.len() && r.trace[p1].round == r.trace[p3].round implies
            r.trace[p2].round >= r.trace[p1].round by {
            assert(r.trace[p1] == if p1 == 0 { ev } else if p1 <= len1 { r1.trace[p1 - 1] } else { r2.trace[p1 - 1 - len1] });
            assert(r.trace[p2] == if p2 == 0 { ev } else if p2 <= len1 { r1.trace[p2 - 1] } else { r2.trace[p2 - 1 - len1] });
            assert(r.trace[p3] == if p3 == 0 { ev } else if p3 <= len1 { r1.trace[p3 - 1] } else { r2.trace[p3 - 1 - len1] });
            if p1 == 0 {
            } else if p3 <= len1 {
                assert(no_outer_between(r1.trace));
                assert(r1.trace[p2 - 1].round >= r1.trace[p1 - 1].round);
            } else if p1 <= len1 {
                assert(false);
            } else {
                assert(no_outer_between(r2.trace));
                assert(r2.trace[p2 - 1 - len1].round >= r2.trace[p1 - 1 - len1].round);
            }
        }
    }
}

/// See `lemma_nested_rounds_complete_first`: the same claim for the trace
/// of one subscriber program.
proof fn lemma_cmds_nointer<V>(
    s: CellState<V>,
    progs: Seq<Seq<Cmd<V>>>,
    cmds: Seq<Cmd<V>>,
    budget: nat,
    counter: nat,
)
    requires
        counter + budget <= u64::MAX,
    ensures
        no_outer_between(spec_cmds(s, progs, cmds, budget, counter).trace),
    decreases budget, 1nat, cmds.len(),
{
    if cmds.len() > 0 {
        match cmds[0] {
            Cmd::Assign(v) => {
                let r1 = spec_set(s, v, progs, budget, counter);
                let r2 = spec_cmds(
                    r1.state,
                    progs,
                    cmds.drop_first(),
                    min_nat(r1.budget, budget),
                    r1.counter,
                );
                let r = spec_cmds(s, progs, cmds, budget, counter);
                let len1 = r1.trace.len() as int;
                lemma_set_frame(s, v, progs, budget, counter);
                lemma_set_window(s, v, progs, budget, counter);
                lemma_nested_rounds_complete_first(s, v, progs, budget, counter);
                lemma_cmds_window(
                    r1.state,
                    progs,
                    cmds.drop_first(),
                    min_nat(r1.budget, budget),
                    r1.counter,
                );
                lemma_cmds_nointer(
                    r1.state,
                    progs,
                    cmds.drop_first(),
                    min_nat(r1.budget, budget),
                    r1.counter,
                );
                assert forall|p1: int, p2: int, p3: int|
                    #![trigger r.trace[p1], r.trace[p2], r.trace[p3]]
                    0 <= p1 < p2 < p3 < r.trace.len() && r.trace[p1].round == r.trace[p3].round
                    implies r.trace[p2].round >= r.trace[p1].round by {
                    assert(r.trace[p1] == if p1 < len1 { r1.trace[p1] } else { r2.trace[p1 - len1] });
                    assert(r.trace[p2] == if p2 < len1 { r1.trace[p2] } else { r2.trace[p2 - len1] });
                    assert(r.trace[p3] == if p3 < len1 { r1.trace[p3] } else { r2.trace[p3 - len1] });
                    if p3 < len1 {
                        assert(no_outer_between(r1.trace));
                        assert(r1.trace[p2].round >= r1.trace[p1].round);
                    } else if p1 < len1 {
                        assert(false);
                    } else {
                        assert(no_outer_between(r2.trace));
                        assert(r2.trace[p2 - len1].round >= r2.trace[p1 - len1].round);
                    }
                }
            },
            Cmd::Register(p) => {
                let s2 = CellState { value: s.value, subs: s.subs.push(p) };
                lemma_cmds_nointer(s2, progs, cmds.drop_first(), budget, counter);
            },
        }
    }
}

} // verus!
