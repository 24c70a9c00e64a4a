use vstd::prelude::*;

use crate::model::{
    advanced_sources, all_occupied, all_vacant, arrived_before, buffer_after, buffer_time_after,
    buffer_with_arrival, busy_time_after, denied_after, devices_after, earliest_request,
    first_at_most, first_holding, first_min_index, first_vacant, is_service, latest_request,
    latest_wait, lemma_active, lemma_earliest_request, lemma_first_at_most, lemma_first_holding,
    lemma_first_min_index, lemma_first_vacant, new_state_spec, next_event_and_time_spec,
    oldest_wait, picked_device, replace_slots, requests_after, s_buffer_time_after,
    s_busy_time_after, s_denied_after, s_processed_after, s_system_time_after, seq_max, seq_min,
    sources_after, step_fits, step_spec, well_formed, well_shaped,
};
use crate::laws::{lemma_step_keeps_well_formed, lemma_time_never_goes_back};
use crate::types::{Request, Simulation, SimulationEvent, State};

verus! {

// ---------------------------------------------------------------------------
// Scans over the vectors of a state
// ---------------------------------------------------------------------------

/// Copies a vector element by element.
fn copied<T: Copy>(v: &Vec<T>) -> (r: Vec<T>)
    ensures
        r@ == v@,
{
    let mut r: Vec<T> = Vec::new();
    let mut i: usize = 0;
    while i < v.len()
        invariant
            i <= v.len(),
            r@ == v@.take(i as int),
        decreases v.len() - i,
    {
        r.push(v[i]);
        i += 1;
        assert(r@ =~= v@.take(i as int));
    }
    assert(v@.take(v.len() as int) =~= v@);
    r
}

/// The smallest time in a non-empty vector.
fn min_time(v: &Vec<u64>) -> (m: u64)
    requires
        v.len() > 0,
    ensures
        m == seq_min(v@),
{
    let mut m = v[0];
    let mut i: usize = 1;
    assert(v@.take(1).drop_last().len() == 0);
    while i < v.len()
        invariant
            1 <= i <= v.len(),
            m == seq_min(v@.take(i as int)),
        decreases v.len() - i,
    {
        assert(v@.take(i + 1).drop_last() =~= v@.take(i as int));
        if v[i] < m {
            m = v[i];
        }
        i += 1;
    }
    assert(v@.take(v.len() as int) =~= v@);
    m
}

/// The largest time in a non-empty vector.
fn max_time(v: &Vec<u64>) -> (m: u64)
    requires
        v.len() > 0,
    ensures
        m == seq_max(v@),
{
    let mut m = v[0];
    let mut i: usize = 1;
    while i < v.len()
        invariant
            1 <= i <= v.len(),
            m == seq_max(v@.take(i as int)),
        decreases v.len() - i,
    {
        assert(v@.take(i + 1).drop_last() =~= v@.take(i as int));
        if v[i] > m {
            m = v[i];
        }
        i += 1;
    }
    assert(v@.take(v.len() as int) =~= v@);
    m
}

/// The first index at or after `from` whose time is at most `bound`.
fn find_at_most(v: &Vec<u64>, bound: u64, from: usize) -> (r: Option<usize>)
    requires
        from <= v.len(),
    ensures
        match r {
            Some(i) => first_at_most(v@, bound, from as int) == Some(i as int),
            None => first_at_most(v@, bound, from as int) is None,
        },
{
    let mut i = from;
    while i < v.len()
        invariant
            from <= i <= v.len(),
            first_at_most(v@, bound, from as int) == first_at_most(v@, bound, i as int),
        decreases v.len() - i,
    {
        if v[i] <= bound {
            return Some(i);
        }
        i += 1;
    }
    None
}

/// The first empty slot at or after `from`.
fn find_vacant(b: &Vec<Option<Request>>, from: usize) -> (r: Option<usize>)
    requires
        from <= b.len(),
    ensures
        match r {
            Some(i) => first_vacant(b@, from as int) == Some(i as int),
            None => first_vacant(b@, from as int) is None,
        },
{
    let mut i = from;
    while i < b.len()
        invariant
            from <= i <= b.len(),
            first_vacant(b@, from as int) == first_vacant(b@, i as int),
        decreases b.len() - i,
    {
        if b[i].is_none() {
            return Some(i);
        }
        i += 1;
    }
    None
}

/// Whether two slots hold the same thing.
fn same_slot(a: &Option<Request>, b: &Option<Request>) -> (r: bool)
    ensures
        r == (*a == *b),
{
    match (a, b) {
        (None, None) => true,
        (Some(x), Some(y)) => x.time_arrived == y.time_arrived && x.src_num == y.src_num,
        _ => false,
    }
}

/// The first slot at or after `from` that holds `x`.
fn find_holding(b: &Vec<Option<Request>>, x: &Option<Request>, from: usize) -> (r: Option<usize>)
    requires
        from <= b.len(),
    ensures
        match r {
            Some(i) => first_holding(b@, *x, from as int) == Some(i as int),
            None => first_holding(b@, *x, from as int) is None,
        },
{
    let mut i = from;
    while i < b.len()
        invariant
            from <= i <= b.len(),
            first_holding(b@, *x, from as int) == first_holding(b@, *x, i as int),
        decreases b.len() - i,
    {
        if same_slot(&b[i], x) {
            return Some(i);
        }
        i += 1;
    }
    None
}

/// Whether `a` arrived before `b`, by time, then by source.
fn before(a: &Request, b: &Request) -> (r: bool)
    ensures
        r == arrived_before(*a, *b),
{
    a.time_arrived < b.time_arrived || (a.time_arrived == b.time_arrived && a.src_num < b.src_num)
}

/// The greatest buffered request.
fn latest_in(b: &Vec<Option<Request>>) -> (r: Option<Request>)
    ensures
        r == latest_request(b@),
{
    let mut m: Option<Request> = None;
    let mut i: usize = 0;
    while i < b.len()
        invariant
            i <= b.len(),
            m == latest_request(b@.take(i as int)),
        decreases b.len() - i,
    {
        assert(b@.take(i + 1).drop_last() =~= b@.take(i as int));
        match b[i] {
            None => {},
            Some(r) => {
                match m {
                    None => {
                        m = Some(r);
                    },
                    Some(x) => {
                        if !before(&r, &x) {
                            m = Some(r);
                        }
                    },
                }
            },
        }
        i += 1;
    }
    assert(b@.take(b.len() as int) =~= b@);
    m
}

/// The least buffered request.
fn earliest_in(b: &Vec<Option<Request>>) -> (r: Option<Request>)
    ensures
        r == earliest_request(b@),
{
    let mut m: Option<Request> = None;
    let mut i: usize = 0;
    while i < b.len()
        invariant
            i <= b.len(),
            m == earliest_request(b@.take(i as int)),
        decreases b.len() - i,
    {
        assert(b@.take(i + 1).drop_last() =~= b@.take(i as int));
        match b[i] {
            None => {},
            Some(r) => {
                match m {
                    None => {
                        m = Some(r);
                    },
                    Some(x) => {
                        if before(&r, &x) {
                            m = Some(r);
                        }
                    },
                }
            },
        }
        i += 1;
    }
    assert(b@.take(b.len() as int) =~= b@);
    m
}

/// The buffer with every slot that holds `x` holding `y` instead.
fn replaced(b: &Vec<Option<Request>>, x: &Option<Request>, y: Option<Request>) -> (r: Vec<
    Option<Request>,
>)
    ensures
        r@ == replace_slots(b@, *x, y),
{
    let mut r: Vec<Option<Request>> = Vec::new();
    let mut i: usize = 0;
    while i < b.len()
        invariant
            i <= b.len(),
            r@ == replace_slots(b@, *x, y).take(i as int),
        decreases b.len() - i,
    {
        if same_slot(&b[i], x) {
            r.push(y);
        } else {
            r.push(b[i]);
        }
        i += 1;
        assert(r@ =~= replace_slots(b@, *x, y).take(i as int));
    }
    assert(replace_slots(b@, *x, y).take(b.len() as int) =~= replace_slots(b@, *x, y));
    r
}

/// Whether every slot holds a request.
fn buffer_full(b: &Vec<Option<Request>>) -> (r: bool)
    ensures
        r == all_occupied(b@),
{
    let mut i: usize = 0;
    while i < b.len()
        invariant
            i <= b.len(),
            forall|k: int| 0 <= k < i ==> #[trigger] b@[k] is Some,
        decreases b.len() - i,
    {
        if b[i].is_none() {
            return false;
        }
        i += 1;
    }
    true
}

/// Whether every slot is empty.
fn buffer_empty(b: &Vec<Option<Request>>) -> (r: bool)
    ensures
        r == all_vacant(b@),
{
    let mut i: usize = 0;
    while i < b.len()
        invariant
            i <= b.len(),
            forall|k: int| 0 <= k < i ==> #[trigger] b@[k] is None,
        decreases b.len() - i,
    {
        if b[i].is_some() {
            return false;
        }
        i += 1;
    }
    true
}

// ---------------------------------------------------------------------------
// The next event
// ---------------------------------------------------------------------------

/// The event the state calls for, and when it happens: nothing left stops the
/// simulation at the moment the last device becomes idle; an arrival before
/// any device frees up goes to the buffer (denying the oldest request when the
/// buffer is full); otherwise an empty buffer lets the arrival be served, and
/// a non-empty one is served from when a device frees up.
fn get_next_event_and_time(st: &State) -> (r: (SimulationEvent, u64))
    ensures
        r == next_event_and_time_spec(st@),
{
    if st.requests_left == 0 {
        (SimulationEvent::StopSimulation, st.next_idle_at)
    } else if st.next_arrival_at < st.next_any_idle_at {
        if buffer_full(&st.buf) {
            (SimulationEvent::PutNewRequestToFullBuffer, st.next_arrival_at)
        } else {
            (SimulationEvent::PutNewRequestToBuffer, st.next_arrival_at)
        }
    } else if buffer_empty(&st.buf) {
        (SimulationEvent::ProcessNewRequest, st.next_arrival_at)
    } else {
        (SimulationEvent::ProcessRequestFromBuffer, st.next_any_idle_at)
    }
}

// ---------------------------------------------------------------------------
// The effect of the current event on each part of the state
// ---------------------------------------------------------------------------

/// Sources after the event: every event but serving from the buffer brings
/// a new request from the source due first.
fn update_sources(s: &Simulation, arrival_cd: u64) -> (r: (Vec<u64>, Vec<usize>))
    requires
        s.current_event != SimulationEvent::ProcessRequestFromBuffer ==> {
            &&& s.state.sources.len() > 0
            &&& first_min_index(s.state.sources@) < s.state.s_requests_count.len()
            &&& seq_min(s.state.sources@) + arrival_cd <= u64::MAX
            &&& s.state.s_requests_count@[first_min_index(s.state.sources@)] + 1 <= usize::MAX
        },
    ensures
        (r.0@, r.1@) == sources_after(s@, arrival_cd),
{
    if let SimulationEvent::ProcessRequestFromBuffer = s.current_event {
        (copied(&s.state.sources), copied(&s.state.s_requests_count))
    } else {
        new_sources(s, arrival_cd)
    }
}

/// The source due first gets its next arrival `arrival_cd` later and counts
/// one more request.
fn new_sources(s: &Simulation, arrival_cd: u64) -> (r: (Vec<u64>, Vec<usize>))
    requires
        s.state.sources.len() > 0,
        first_min_index(s.state.sources@) < s.state.s_requests_count.len(),
        seq_min(s.state.sources@) + arrival_cd <= u64::MAX,
        s.state.s_requests_count@[first_min_index(s.state.sources@)] + 1 <= usize::MAX,
    ensures
        (r.0@, r.1@) == advanced_sources(s.state@, arrival_cd),
{
    proof {
        lemma_first_min_index(s.state.sources@);
    }
    let min = min_time(&s.state.sources);
    let min_pos = find_at_most(&s.state.sources, min, 0).unwrap();
    let mut sources = copied(&s.state.sources);
    sources.set(min_pos, min + arrival_cd);
    let mut counts = copied(&s.state.s_requests_count);
    let count = counts[min_pos] + 1;
    counts.set(min_pos, count);
    (sources, counts)
}

/// Devices after the event: a served request occupies a free device.
fn update_devices(s: &Simulation, service_time: u64) -> (r: (Vec<u64>, usize))
    requires
        is_service(s.current_event) ==> {
            &&& first_at_most(s.state.devices@, s.current_time, 0) is Some
            &&& s.state.device_pointer <= s.state.devices.len()
            &&& s.current_time + service_time <= u64::MAX
        },
    ensures
        (r.0@, r.1) == devices_after(s@, service_time),
        r.0.len() == s.state.devices.len(),
{
    match s.current_event {
        SimulationEvent::ProcessNewRequest | SimulationEvent::ProcessRequestFromBuffer => pick_device(
            s,
            service_time,
        ),
        _ => (copied(&s.state.devices), s.state.device_pointer),
    }
}

/// The first free device from the device pointer on, else from the start,
/// becomes busy for `service_time`; the pointer moves past it.
fn pick_device(s: &Simulation, service_time: u64) -> (r: (Vec<u64>, usize))
    requires
        first_at_most(s.state.devices@, s.current_time, 0) is Some,
        s.state.device_pointer <= s.state.devices.len(),
        s.current_time + service_time <= u64::MAX,
    ensures
        (r.0@, r.1) == picked_device(s@, service_time),
        r.0.len() == s.state.devices.len(),
{
    proof {
        lemma_first_at_most(s.state.devices@, s.current_time, 0);
        lemma_first_at_most(s.state.devices@, s.current_time, s.state.device_pointer as int);
    }
    let pos = match find_at_most(&s.state.devices, s.current_time, s.state.device_pointer) {
        Some(a) => a,
        None => find_at_most(&s.state.devices, s.current_time, 0).unwrap(),
    };
    let mut devices = copied(&s.state.devices);
    devices.set(pos, s.current_time + service_time);
    (devices, pos + 1)
}

/// The buffer after the event: an arrival to a full buffer replaces the
/// oldest request, an arrival to a buffer with room takes an empty slot, and
/// serving from the buffer empties the slot of the latest request.
fn update_buffer(s: &Simulation) -> (r: (Vec<Option<Request>>, usize))
    requires
        s.current_event == SimulationEvent::PutNewRequestToFullBuffer ==> !all_vacant(
            s.state.buf@,
        ),
        s.current_event == SimulationEvent::PutNewRequestToBuffer ==> {
            &&& first_vacant(s.state.buf@, 0) is Some
            &&& s.state.buf_pointer <= s.state.buf.len()
        },
        s.current_event == SimulationEvent::ProcessRequestFromBuffer ==> s.state.buf.len() > 0,
    ensures
        (r.0@, r.1) == buffer_after(s@),
{
    let some_arrival = Some(
        Request { time_arrived: s.state.next_arrival_at, src_num: s.state.s_next_arrival },
    );
    match s.current_event {
        SimulationEvent::PutNewRequestToFullBuffer => {
            let min = earliest_in(&s.state.buf);
            proof {
                lemma_earliest_request(s.state.buf@);
                lemma_first_holding(s.state.buf@, min, 0);
            }
            let min_pos = find_holding(&s.state.buf, &min, 0).unwrap();
            (replaced(&s.state.buf, &min, some_arrival), min_pos + 1)
        },
        SimulationEvent::PutNewRequestToBuffer => add_to_buffer(s),
        SimulationEvent::ProcessNewRequest => (copied(&s.state.buf), s.state.buf_pointer),
        SimulationEvent::ProcessRequestFromBuffer => {
            let max = latest_in(&s.state.buf);
            (replaced(&s.state.buf, &max, None), s.state.buf_pointer)
        },
        SimulationEvent::StopSimulation => (copied(&s.state.buf), s.state.buf_pointer),
    }
}

/// The arriving request takes the first empty slot from the buffer pointer
/// on, else from the start; the pointer moves past it.
fn add_to_buffer(s: &Simulation) -> (r: (Vec<Option<Request>>, usize))
    requires
        first_vacant(s.state.buf@, 0) is Some,
        s.state.buf_pointer <= s.state.buf.len(),
    ensures
        (r.0@, r.1) == buffer_with_arrival(s.state@),
{
    proof {
        lemma_first_vacant(s.state.buf@, 0);
        lemma_first_vacant(s.state.buf@, s.state.buf_pointer as int);
    }
    let some_arrival = Some(
        Request { time_arrived: s.state.next_arrival_at, src_num: s.state.s_next_arrival },
    );
    let pos = match find_vacant(&s.state.buf, s.state.buf_pointer) {
        Some(a) => a,
        None => find_vacant(&s.state.buf, 0).unwrap(),
    };
    let mut buf = copied(&s.state.buf);
    buf.set(pos, some_arrival);
    (buf, pos + 1)
}

/// Requests processed and left: an arrival to the buffer changes neither, a
/// denial finishes a request, any other event processes one.
fn update_requests(s: &Simulation) -> (r: (usize, usize))
    requires
        s.current_event != SimulationEvent::PutNewRequestToBuffer ==> s.state.requests_left >= 1,
        s.current_event != SimulationEvent::PutNewRequestToBuffer && s.current_event
            != SimulationEvent::PutNewRequestToFullBuffer ==> s.state.requests_processed + 1
            <= usize::MAX,
    ensures
        r == requests_after(s@),
{
    match s.current_event {
        SimulationEvent::PutNewRequestToFullBuffer => (
            s.state.requests_processed,
            s.state.requests_left - 1,
        ),
        SimulationEvent::PutNewRequestToBuffer => (
            s.state.requests_processed,
            s.state.requests_left,
        ),
        _ => (s.state.requests_processed + 1, s.state.requests_left - 1),
    }
}

/// Requests denied: one more on an arrival to a full buffer.
fn update_denied(s: &Simulation) -> (r: usize)
    requires
        s.current_event == SimulationEvent::PutNewRequestToFullBuffer ==> s.state.requests_denied
            + 1 <= usize::MAX,
    ensures
        r == denied_after(s@),
{
    if let SimulationEvent::PutNewRequestToFullBuffer = s.current_event {
        s.state.requests_denied + 1
    } else {
        s.state.requests_denied
    }
}

/// Per source processed requests: any event but an arrival to the buffer
/// counts one more for the source due next.
fn s_update_processed(s: &Simulation) -> (r: Vec<usize>)
    requires
        s.current_event != SimulationEvent::PutNewRequestToBuffer && s.current_event
            != SimulationEvent::PutNewRequestToFullBuffer ==> {
            &&& s.state.s_next_arrival < s.state.s_requests_processed.len()
            &&& s.state.s_requests_processed@[s.state.s_next_arrival as int] + 1 <= usize::MAX
        },
    ensures
        r@ == s_processed_after(s@),
{
    match s.current_event {
        SimulationEvent::PutNewRequestToFullBuffer => copied(&s.state.s_requests_processed),
        SimulationEvent::PutNewRequestToBuffer => copied(&s.state.s_requests_processed),
        _ => {
            let k = s.state.s_next_arrival;
            let mut v = copied(&s.state.s_requests_processed);
            let n = v[k] + 1;
            v.set(k, n);
            v
        },
    }
}

/// Per source denied requests: a denial counts one more for the source due
/// next.
fn s_update_denied(s: &Simulation) -> (r: Vec<usize>)
    requires
        s.current_event == SimulationEvent::PutNewRequestToFullBuffer ==> {
            &&& s.state.s_next_arrival < s.state.s_requests_denied.len()
            &&& s.state.s_requests_denied@[s.state.s_next_arrival as int] + 1 <= usize::MAX
        },
    ensures
        r@ == s_denied_after(s@),
{
    if let SimulationEvent::PutNewRequestToFullBuffer = s.current_event {
        let k = s.state.s_next_arrival;
        let mut v = copied(&s.state.s_requests_denied);
        let n = v[k] + 1;
        v.set(k, n);
        v
    } else {
        copied(&s.state.s_requests_denied)
    }
}

/// Total time in the buffer: a request leaving the buffer adds its wait.
fn update_buffer_time(s: &Simulation) -> (r: u64)
    requires
        s.current_event == SimulationEvent::PutNewRequestToFullBuffer ==> {
            &&& earliest_request(s.state.buf@) is Some
            &&& earliest_request(s.state.buf@)->0.time_arrived <= s.current_time
            &&& s.state.total_time_in_buffer + oldest_wait(s@) <= u64::MAX
        },
        s.current_event == SimulationEvent::ProcessRequestFromBuffer ==> {
            &&& latest_request(s.state.buf@) is Some
            &&& latest_request(s.state.buf@)->0.time_arrived <= s.current_time
            &&& s.state.total_time_in_buffer + latest_wait(s@) <= u64::MAX
        },
    ensures
        r == buffer_time_after(s@),
{
    match s.current_event {
        SimulationEvent::PutNewRequestToFullBuffer => {
            let min = earliest_in(&s.state.buf).unwrap();
            s.state.total_time_in_buffer + (s.current_time - min.time_arrived)
        },
        SimulationEvent::ProcessRequestFromBuffer => {
            let max = latest_in(&s.state.buf).unwrap();
            s.state.total_time_in_buffer + (s.current_time - max.time_arrived)
        },
        _ => s.state.total_time_in_buffer,
    }
}

/// Total busy time of the devices: a service adds its duration.
fn update_busy_time(s: &Simulation, service_time: u64) -> (r: u64)
    requires
        is_service(s.current_event) ==> s.state.total_time_devices_busy + service_time
            <= u64::MAX,
    ensures
        r == busy_time_after(s@, service_time),
{
    match s.current_event {
        SimulationEvent::ProcessNewRequest | SimulationEvent::ProcessRequestFromBuffer => s.state.total_time_devices_busy
            + service_time,
        _ => s.state.total_time_devices_busy,
    }
}

/// Per source buffer time.
fn s_update_buftime(s: &Simulation) -> (r: Vec<u64>)
    requires
        s.current_event == SimulationEvent::PutNewRequestToFullBuffer ==> {
            let o = earliest_request(s.state.buf@);
            &&& o is Some
            &&& o->0.src_num < s.state.s_time_spent_in_buffer.len()
            &&& o->0.time_arrived <= s.current_time
            &&& s.state.s_time_spent_in_buffer@[o->0.src_num as int] + oldest_wait(s@)
                <= u64::MAX
        },
        s.current_event == SimulationEvent::ProcessRequestFromBuffer ==> {
            let o = earliest_request(s.state.buf@);
            let l = latest_request(s.state.buf@);
            &&& o is Some
            &&& l is Some
            &&& l->0.src_num < s.state.s_time_spent_in_buffer.len()
            &&& o->0.time_arrived <= s.current_time
            &&& s.state.s_time_spent_in_buffer@[l->0.src_num as int] + oldest_wait(s@)
                <= u64::MAX
        },
    ensures
        r@ == s_buffer_time_after(s@),
{
    match s.current_event {
        SimulationEvent::PutNewRequestToFullBuffer => {
            let min = earliest_in(&s.state.buf).unwrap();
            let mut v = copied(&s.state.s_time_spent_in_buffer);
            let t = v[min.src_num] + (s.current_time - min.time_arrived);
            v.set(min.src_num, t);
            v
        },
        SimulationEvent::ProcessRequestFromBuffer => {
            let max = latest_in(&s.state.buf).unwrap();
            let min = earliest_in(&s.state.buf).unwrap();
            let mut v = copied(&s.state.s_time_spent_in_buffer);
            let t = v[max.src_num] + (s.current_time - min.time_arrived);
            v.set(max.src_num, t);
            v
        },
        _ => copied(&s.state.s_time_spent_in_buffer),
    }
}

/// Per source busy time of the devices.
fn s_update_devbusy(s: &Simulation, service_time: u64) -> (r: Vec<u64>)
    requires
        s.current_event == SimulationEvent::ProcessNewRequest ==> {
            &&& s.state.s_next_arrival < s.state.s_time_devices_busy.len()
            &&& s.state.s_time_devices_busy@[s.state.s_next_arrival as int] + service_time
                <= u64::MAX
        },
        s.current_event == SimulationEvent::ProcessRequestFromBuffer ==> {
            let l = latest_request(s.state.buf@);
            &&& l is Some
            &&& l->0.src_num < s.state.s_time_devices_busy.len()
            &&& s.state.s_time_devices_busy@[l->0.src_num as int] + service_time <= u64::MAX
        },
    ensures
        r@ == s_busy_time_after(s@, service_time),
{
    match s.current_event {
        SimulationEvent::ProcessNewRequest => {
            let k = s.state.s_next_arrival;
            let mut v = copied(&s.state.s_time_devices_busy);
            let t = v[k] + service_time;
            v.set(k, t);
            v
        },
        SimulationEvent::ProcessRequestFromBuffer => {
            let max = latest_in(&s.state.buf).unwrap();
            let mut v = copied(&s.state.s_time_devices_busy);
            let t = v[max.src_num] + service_time;
            v.set(max.src_num, t);
            v
        },
        _ => copied(&s.state.s_time_devices_busy),
    }
}

/// Per source time in the system: time in the buffer plus time in service.
fn s_update_systime(s: &Simulation, new_s_buftime: &Vec<u64>, new_s_busytime: &Vec<u64>) -> (r: Vec<
    u64,
>)
    requires
        new_s_buftime.len() == s.state.s_time_spent_in_system.len(),
        new_s_busytime.len() == s.state.s_time_spent_in_system.len(),
        forall|i: int|
            0 <= i < s.state.s_time_spent_in_system.len() ==> #[trigger] new_s_buftime@[i]
                + new_s_busytime@[i] <= u64::MAX,
    ensures
        r@ == s_system_time_after(
            s.state.s_time_spent_in_system@.len(),
            new_s_buftime@,
            new_s_busytime@,
        ),
{
    let n = s.state.s_time_spent_in_system.len();
    let mut r: Vec<u64> = Vec::new();
    let mut i: usize = 0;
    while i < n
        invariant
            i <= n,
            n == s.state.s_time_spent_in_system.len(),
            new_s_buftime.len() == n,
            new_s_busytime.len() == n,
            forall|j: int| 0 <= j < n ==> #[trigger] new_s_buftime@[j] + new_s_busytime@[j] <= u64::MAX,
            r@ == s_system_time_after(n as nat, new_s_buftime@, new_s_busytime@).take(i as int),
        decreases n - i,
    {
        r.push(new_s_buftime[i] + new_s_busytime[i]);
        i += 1;
        assert(r@ =~= s_system_time_after(n as nat, new_s_buftime@, new_s_busytime@).take(i as int));
    }
    assert(s_system_time_after(n as nat, new_s_buftime@, new_s_busytime@).take(n as int)
        =~= s_system_time_after(n as nat, new_s_buftime@, new_s_busytime@));
    r
}

/// A copy of a state.
fn copy_state(st: &State) -> (r: State)
    ensures
        r@ == st@,
{
    State {
        sources: copied(&st.sources),
        devices: copied(&st.devices),
        device_pointer: st.device_pointer,
        buf: copied(&st.buf),
        buf_pointer: st.buf_pointer,
        next_idle_at: st.next_idle_at,
        next_any_idle_at: st.next_any_idle_at,
        next_arrival_at: st.next_arrival_at,
        requests_processed: st.requests_processed,
        requests_left: st.requests_left,
        requests_denied: st.requests_denied,
        total_time_in_buffer: st.total_time_in_buffer,
        total_time_devices_busy: st.total_time_devices_busy,
        total_time_spent_in_system: st.total_time_spent_in_system,
        s_requests_count: copied(&st.s_requests_count),
        s_next_arrival: st.s_next_arrival,
        s_requests_processed: copied(&st.s_requests_processed),
        s_requests_denied: copied(&st.s_requests_denied),
        s_time_spent_in_system: copied(&st.s_time_spent_in_system),
        s_time_spent_in_buffer: copied(&st.s_time_spent_in_buffer),
        s_time_devices_busy: copied(&st.s_time_devices_busy),
    }
}

/// The state once the current event has taken place, with its cached
/// extrema recomputed.
fn get_new_state(s: &Simulation, arrival_cd: u64, service_time: u64) -> (r: State)
    requires
        well_formed(s@),
        step_fits(s@, arrival_cd, service_time),
    ensures
        r@ == new_state_spec(s@, arrival_cd, service_time),
{
    if let SimulationEvent::StopSimulation = s.current_event {
        return copy_state(&s.state);
    }
    proof {
        lemma_active(s@);
    }
    let new_sources = update_sources(s, arrival_cd);
    let new_devices = update_devices(s, service_time);
    let new_buffer = update_buffer(s);
    let new_requests = update_requests(s);
    let new_denied = update_denied(s);
    let new_buffer_time = update_buffer_time(s);
    let new_busy = update_busy_time(s, service_time);
    let new_s_processed = s_update_processed(s);
    let new_s_denied = s_update_denied(s);
    let new_s_buftime = s_update_buftime(s);
    let new_s_devbusy = s_update_devbusy(s, service_time);
    let new_s_systime = s_update_systime(s, &new_s_buftime, &new_s_devbusy);
    let next_idle_at = max_time(&new_devices.0);
    let next_any_idle_at = min_time(&new_devices.0);
    let next_arrival_at = min_time(&new_sources.0);
    proof {
        lemma_first_min_index(new_sources.0@);
    }
    let s_next_arrival = find_at_most(&new_sources.0, next_arrival_at, 0).unwrap();
    State {
        sources: new_sources.0,
        devices: new_devices.0,
        device_pointer: new_devices.1 % s.max_devices,
        buf: new_buffer.0,
        buf_pointer: new_buffer.1 % s.max_buf_length,
        next_idle_at: next_idle_at,
        next_any_idle_at: next_any_idle_at,
        next_arrival_at: next_arrival_at,
        requests_processed: new_requests.0,
        requests_left: new_requests.1,
        requests_denied: new_denied,
        total_time_in_buffer: new_buffer_time,
        total_time_devices_busy: new_busy,
        total_time_spent_in_system: new_buffer_time + new_busy,
        s_requests_count: new_sources.1,
        s_next_arrival: s_next_arrival,
        s_requests_processed: new_s_processed,
        s_requests_denied: new_s_denied,
        s_time_spent_in_system: new_s_systime,
        s_time_spent_in_buffer: new_s_buftime,
        s_time_devices_busy: new_s_devbusy,
    }
}

/// Advances the simulation by one event. `arrival_cd` is the delay until the
/// next request of the source whose request arrives now, and `service_time`
/// is how long a device serves the request taken now; each is used only by
/// the events that need it. A stopped simulation is returned unchanged.
pub fn simulator(s: &Simulation, arrival_cd: u64, service_time: u64) -> (r: Simulation)
    requires
        well_formed(s@),
        step_fits(s@, arrival_cd, service_time),
    ensures
        r@ == step_spec(s@, arrival_cd, service_time),
        well_formed(r@),
        r.current_time >= s.current_time,
{
    proof {
        lemma_step_keeps_well_formed(s@, arrival_cd, service_time);
        lemma_time_never_goes_back(s@, arrival_cd, service_time);
    }
    match s.current_event {
        SimulationEvent::StopSimulation => Simulation {
            max_sources: s.max_sources,
            max_devices: s.max_devices,
            max_buf_length: s.max_buf_length,
            average_arrival_cd: s.average_arrival_cd,
            average_device_cd: s.average_device_cd,
            state: copy_state(&s.state),
            current_event: s.current_event,
            current_time: s.current_time,
        },
        _ => {
            let state = get_new_state(s, arrival_cd, service_time);
            let next = get_next_event_and_time(&state);
            Simulation {
                max_sources: s.max_sources,
                max_devices: s.max_devices,
                max_buf_length: s.max_buf_length,
                average_arrival_cd: s.average_arrival_cd,
                average_device_cd: s.average_device_cd,
                state: state,
                current_event: next.0,
                current_time: next.1,
            }
        },
    }
}

// ---------------------------------------------------------------------------
// Checking that a step can be taken
// ---------------------------------------------------------------------------

/// Whether a simulation is well formed.
pub fn is_well_formed(s: &Simulation) -> (ok: bool)
    ensures
        ok == well_formed(s@),
{
    let st = &s.state;
    let shaped = s.max_sources > 0 && st.sources.len() == s.max_sources
        && st.s_requests_count.len() == s.max_sources && st.s_requests_processed.len()
        == s.max_sources && st.s_requests_denied.len() == s.max_sources
        && st.s_time_spent_in_system.len() == s.max_sources && st.s_time_spent_in_buffer.len()
        == s.max_sources && st.s_time_devices_busy.len() == s.max_sources && s.max_devices > 0
        && st.devices.len() == s.max_devices && st.device_pointer < s.max_devices
        && s.max_buf_length > 0 && st.buf.len() == s.max_buf_length && st.buf_pointer
        < s.max_buf_length;
    if !shaped {
        return false;
    }
    assert(well_shaped(s@));
    let mut i: usize = 0;
    while i < st.buf.len()
        invariant
            st == &s.state,
            i <= st.buf.len(),
            forall|j: int|
                0 <= j < i && (#[trigger] st.buf@[j]) is Some ==> st.buf@[j]->0.src_num
                    < s.max_sources && st.buf@[j]->0.time_arrived <= s.current_time,
        decreases st.buf.len() - i,
    {
        if let Some(r) = st.buf[i] {
            if r.src_num >= s.max_sources || r.time_arrived > s.current_time {
                assert(st.buf@[i as int] == Some(r));
                return false;
            }
        }
        i += 1;
    }
    if st.next_idle_at != max_time(&st.devices) || st.next_any_idle_at != min_time(&st.devices) {
        return false;
    }
    let m = min_time(&st.sources);
    if st.next_arrival_at != m {
        return false;
    }
    proof {
        lemma_first_min_index(st.sources@);
    }
    let p = find_at_most(&st.sources, m, 0).unwrap();
    if st.s_next_arrival != p {
        return false;
    }
    let counted = match st.requests_processed.checked_add(st.requests_denied) {
        Some(x) => x.checked_add(st.requests_left).is_some(),
        None => false,
    };
    if !counted {
        return false;
    }
    let next = get_next_event_and_time(st);
    next.0 == s.current_event && next.1 == s.current_time
}

/// Whether the arithmetic of the next step fits in the integer types.
pub fn step_fits_check(s: &Simulation, arrival_cd: u64, service_time: u64) -> (ok: bool)
    requires
        well_formed(s@),
    ensures
        ok == step_fits(s@, arrival_cd, service_time),
{
    if let SimulationEvent::StopSimulation = s.current_event {
        return true;
    }
    proof {
        lemma_active(s@);
        lemma_first_min_index(s.state.sources@);
    }
    let st = &s.state;
    let e = s.current_event;
    let t = s.current_time;
    let k = st.s_next_arrival;
    let max64 = u64::MAX as u128;
    if e != SimulationEvent::ProcessRequestFromBuffer {
        let m = min_time(&st.sources);
        if m as u128 + arrival_cd as u128 > max64 || st.s_requests_count[k] == usize::MAX {
            return false;
        }
    }
    if e == SimulationEvent::ProcessNewRequest || e == SimulationEvent::ProcessRequestFromBuffer {
        if t as u128 + service_time as u128 > max64 || st.total_time_devices_busy as u128
            + service_time as u128 > max64 || st.s_requests_processed[k] == usize::MAX {
            return false;
        }
    }
    if e == SimulationEvent::ProcessNewRequest {
        if st.s_time_devices_busy[k] as u128 + service_time as u128 > max64 {
            return false;
        }
    }
    if e == SimulationEvent::ProcessRequestFromBuffer {
        let latest = latest_in(&st.buf).unwrap();
        let oldest = earliest_in(&st.buf).unwrap();
        if st.s_time_devices_busy[latest.src_num] as u128 + service_time as u128 > max64
            || st.total_time_in_buffer as u128 + (t - latest.time_arrived) as u128 > max64
            || st.s_time_spent_in_buffer[latest.src_num] as u128 + (t - oldest.time_arrived) as u128
            > max64 {
            return false;
        }
    }
    if e == SimulationEvent::PutNewRequestToFullBuffer {
        let oldest = earliest_in(&st.buf).unwrap();
        if st.s_requests_denied[k] == usize::MAX || st.total_time_in_buffer as u128 + (t
            - oldest.time_arrived) as u128 > max64 || st.s_time_spent_in_buffer[oldest.src_num] as u128
            + (t - oldest.time_arrived) as u128 > max64 {
            return false;
        }
    }
    let buffer_time = update_buffer_time(s);
    let busy_time = update_busy_time(s, service_time);
    if buffer_time as u128 + busy_time as u128 > max64 {
        return false;
    }
    let s_buffer = s_update_buftime(s);
    let s_busy = s_update_devbusy(s, service_time);
    let n = st.s_time_spent_in_system.len();
    let mut i: usize = 0;
    while i < n
        invariant
            i <= n,
            n == s.state.s_time_spent_in_system.len(),
            max64 == u64::MAX,
            s.current_event != SimulationEvent::StopSimulation,
            s_buffer@ == s_buffer_time_after(s@),
            s_busy@ == s_busy_time_after(s@, service_time),
            s_buffer.len() == n,
            s_busy.len() == n,
            forall|j: int|
                0 <= j < i ==> #[trigger] s_buffer_time_after(s@)[j] + s_busy_time_after(
                    s@,
                    service_time,
                )[j] <= u64::MAX,
        decreases n - i,
    {
        assert(s_buffer_time_after(s@)[i as int] == s_buffer@[i as int]);
        assert(s_busy_time_after(s@, service_time)[i as int] == s_busy@[i as int]);
        if s_buffer[i] as u128 + s_busy[i] as u128 > max64 {
            assert(s_buffer_time_after(s@)[i as int] + s_busy_time_after(s@, service_time)[i as int] > u64::MAX);
            return false;
        }
        i += 1;
    }
    true
}

/// Whether `simulator` can take the next step with these draws.
pub fn can_step(s: &Simulation, arrival_cd: u64, service_time: u64) -> (ok: bool)
    ensures
        ok == (well_formed(s@) && step_fits(s@, arrival_cd, service_time)),
{
    is_well_formed(s) && step_fits_check(s, arrival_cd, service_time)
}

} // verus!
