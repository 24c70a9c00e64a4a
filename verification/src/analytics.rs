use vstd::prelude::*;

use crate::model::{
    count_sum, first_at_most, first_min_index, lemma_seq_max, lemma_seq_min,
    next_event_and_time_spec, seq_min, statistics_consistent, time_sum, well_formed,
};
use crate::types::{Simulation, SimulationEvent, SimulationModel, State, StateModel, UserInput};

verus! {

/// The simulation a user's input starts from: every source due and every
/// device idle at time zero, an empty buffer, `n` requests left and all
/// statistics at zero, about to take the first request.
pub open spec fn initial_model(n: usize, inp: UserInput) -> SimulationModel {
    SimulationModel {
        max_sources: inp.n_src,
        max_devices: inp.n_dvc,
        max_buf_length: inp.n_buf,
        average_arrival_cd: inp.avg_src,
        average_device_cd: inp.avg_dvc,
        state: StateModel {
            sources: Seq::new(inp.n_src as nat, |i: int| 0u64),
            devices: Seq::new(inp.n_dvc as nat, |i: int| 0u64),
            device_pointer: 0,
            buf: Seq::new(inp.n_buf as nat, |i: int| None),
            buf_pointer: 0,
            next_idle_at: 0,
            next_any_idle_at: 0,
            next_arrival_at: 0,
            requests_processed: 0,
            requests_left: n,
            requests_denied: 0,
            total_time_in_buffer: 0,
            total_time_devices_busy: 0,
            total_time_spent_in_system: 0,
            s_requests_count: Seq::new(inp.n_src as nat, |i: int| 0usize),
            s_next_arrival: 0,
            s_requests_processed: Seq::new(inp.n_src as nat, |i: int| 0usize),
            s_requests_denied: Seq::new(inp.n_src as nat, |i: int| 0usize),
            s_time_spent_in_system: Seq::new(inp.n_src as nat, |i: int| 0u64),
            s_time_spent_in_buffer: Seq::new(inp.n_src as nat, |i: int| 0u64),
            s_time_devices_busy: Seq::new(inp.n_src as nat, |i: int| 0u64),
        },
        current_event: SimulationEvent::ProcessNewRequest,
        current_time: 0,
    }
}

/// A vector of `n` copies of `x`.
fn filled<T: Copy>(x: T, n: usize) -> (r: Vec<T>)
    ensures
        r@ == Seq::new(n as nat, |i: int| x),
{
    let mut r: Vec<T> = Vec::new();
    let mut i: usize = 0;
    while i < n
        invariant
            i <= n,
            r@ == Seq::new(i as nat, |j: int| x),
        decreases n - i,
    {
        r.push(x);
        i += 1;
        assert(r@ =~= Seq::new(i as nat, |j: int| x));
    }
    r
}

/// The simulation of `n` requests with the user's parameters, before its
/// first event.
pub fn base_simulation(n: usize, inp: UserInput) -> (s: Simulation)
    ensures
        s@ == initial_model(n, inp),
        statistics_consistent(s@),
        n > 0 && inp.n_src > 0 && inp.n_dvc > 0 && inp.n_buf > 0 ==> well_formed(s@),
{
    let s = Simulation {
        max_sources: inp.n_src,
        max_devices: inp.n_dvc,
        max_buf_length: inp.n_buf,
        average_arrival_cd: inp.avg_src,
        average_device_cd: inp.avg_dvc,
        state: State {
            sources: filled(0u64, inp.n_src),
            devices: filled(0u64, inp.n_dvc),
            device_pointer: 0,
            buf: filled(None, inp.n_buf),
            buf_pointer: 0,
            next_idle_at: 0,
            next_any_idle_at: 0,
            next_arrival_at: 0,
            requests_processed: 0,
            requests_left: n,
            requests_denied: 0,
            total_time_in_buffer: 0,
            total_time_devices_busy: 0,
            total_time_spent_in_system: 0,
            s_requests_count: filled(0usize, inp.n_src),
            s_next_arrival: 0,
            s_requests_processed: filled(0usize, inp.n_src),
            s_requests_denied: filled(0usize, inp.n_src),
            s_time_spent_in_system: filled(0u64, inp.n_src),
            s_time_spent_in_buffer: filled(0u64, inp.n_src),
            s_time_devices_busy: filled(0u64, inp.n_src),
        },
        current_event: SimulationEvent::ProcessNewRequest,
        current_time: 0,
    };
    proof {
        assert(s@.state =~= initial_model(n, inp).state);
        lemma_initial_statistics(n, inp);
        if n > 0 && inp.n_src > 0 && inp.n_dvc > 0 && inp.n_buf > 0 {
            lemma_initial_well_formed(n, inp);
        }
    }
    s
}

proof fn lemma_zero_sums(n: nat)
    ensures
        count_sum(Seq::new(n, |i: int| 0usize)) == 0,
        time_sum(Seq::new(n, |i: int| 0u64)) == 0,
    decreases n,
{
    if n > 0 {
        lemma_zero_sums((n - 1) as nat);
        assert(Seq::new(n, |i: int| 0usize).drop_last() =~= Seq::new((n - 1) as nat, |i: int| 0usize));
        assert(Seq::new(n, |i: int| 0u64).drop_last() =~= Seq::new((n - 1) as nat, |i: int| 0u64));
    }
}

/// A simulation that starts from the user's input is well formed when there
/// is at least one request, source, device and buffer slot.
pub proof fn lemma_initial_well_formed(n: usize, inp: UserInput)
    requires
        n > 0,
        inp.n_src > 0,
        inp.n_dvc > 0,
        inp.n_buf > 0,
    ensures
        well_formed(initial_model(n, inp)),
{
    let m = initial_model(n, inp);
    let st = m.state;
    lemma_seq_min(st.sources);
    lemma_seq_min(st.devices);
    lemma_seq_max(st.devices);
    assert(st.sources[0] == 0);
    assert(st.devices[0] == 0);
    assert(first_at_most(st.sources, seq_min(st.sources), 0) == Some(0int));
    assert(first_min_index(st.sources) == 0);
    assert(next_event_and_time_spec(st) == (SimulationEvent::ProcessNewRequest, 0u64));
}

/// The initial statistics agree with each other whatever the input.
pub proof fn lemma_initial_statistics(n: usize, inp: UserInput)
    ensures
        statistics_consistent(initial_model(n, inp)),
{
    lemma_zero_sums(inp.n_src as nat);
}

} // verus!
