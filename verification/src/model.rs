use vstd::prelude::*;

use crate::types::{Request, SimulationEvent, SimulationModel, StateModel};

verus! {

// ---------------------------------------------------------------------------
// Sequences of times
// ---------------------------------------------------------------------------

/// The smallest time of a non-empty sequence.
pub open spec fn seq_min(s: Seq<u64>) -> u64
    decreases s.len(),
{
    if s.len() <= 1 {
        s[0]
    } else {
        let m = seq_min(s.drop_last());
        if s.last() < m {
            s.last()
        } else {
            m
        }
    }
}

/// The largest time of a non-empty sequence.
pub open spec fn seq_max(s: Seq<u64>) -> u64
    decreases s.len(),
{
    if s.len() <= 1 {
        s[0]
    } else {
        let m = seq_max(s.drop_last());
        if s.last() > m {
            s.last()
        } else {
            m
        }
    }
}

/// The first index at or after `from` whose time is at most `bound`.
pub open spec fn first_at_most(s: Seq<u64>, bound: u64, from: int) -> Option<int>
    decreases s.len() - from,
{
    if from < 0 || from >= s.len() {
        None
    } else if s[from] <= bound {
        Some(from)
    } else {
        first_at_most(s, bound, from + 1)
    }
}

/// The first index holding the smallest time.
pub open spec fn first_min_index(s: Seq<u64>) -> int {
    match first_at_most(s, seq_min(s), 0) {
        Some(i) => i,
        None => 0,
    }
}

// ---------------------------------------------------------------------------
// The buffer
// ---------------------------------------------------------------------------

/// Buffered requests are ordered by arrival time, then by source.
pub open spec fn arrived_before(a: Request, b: Request) -> bool {
    a.time_arrived < b.time_arrived || (a.time_arrived == b.time_arrived && a.src_num < b.src_num)
}

/// The greatest buffered request, `None` when the buffer is empty.
pub open spec fn latest_request(b: Seq<Option<Request>>) -> Option<Request>
    decreases b.len(),
{
    if b.len() == 0 {
        None
    } else {
        let m = latest_request(b.drop_last());
        match b.last() {
            None => m,
            Some(r) => match m {
                None => Some(r),
                Some(x) => if arrived_before(r, x) {
                    m
                } else {
                    Some(r)
                },
            },
        }
    }
}

/// The least buffered request, `None` when the buffer is empty.
pub open spec fn earliest_request(b: Seq<Option<Request>>) -> Option<Request>
    decreases b.len(),
{
    if b.len() == 0 {
        None
    } else {
        let m = earliest_request(b.drop_last());
        match b.last() {
            None => m,
            Some(r) => match m {
                None => Some(r),
                Some(x) => if arrived_before(r, x) {
                    Some(r)
                } else {
                    m
                },
            },
        }
    }
}

/// The first empty slot at or after `from`.
pub open spec fn first_vacant(b: Seq<Option<Request>>, from: int) -> Option<int>
    decreases b.len() - from,
{
    if from < 0 || from >= b.len() {
        None
    } else if b[from] is None {
        Some(from)
    } else {
        first_vacant(b, from + 1)
    }
}

/// The first slot at or after `from` that holds `x`.
pub open spec fn first_holding(b: Seq<Option<Request>>, x: Option<Request>, from: int) -> Option<
    int,
>
    decreases b.len() - from,
{
    if from < 0 || from >= b.len() {
        None
    } else if b[from] == x {
        Some(from)
    } else {
        first_holding(b, x, from + 1)
    }
}

/// Every slot that holds `x` holds `y` instead.
pub open spec fn replace_slots(b: Seq<Option<Request>>, x: Option<Request>, y: Option<Request>) -> Seq<
    Option<Request>,
> {
    Seq::new(b.len(), |i: int| if b[i] == x { y } else { b[i] })
}

/// Every slot holds a request.
pub open spec fn all_occupied(b: Seq<Option<Request>>) -> bool {
    forall|i: int| 0 <= i < b.len() ==> #[trigger] b[i] is Some
}

/// Every slot is empty.
pub open spec fn all_vacant(b: Seq<Option<Request>>) -> bool {
    forall|i: int| 0 <= i < b.len() ==> #[trigger] b[i] is None
}

// ---------------------------------------------------------------------------
// One step of the simulation
// ---------------------------------------------------------------------------

/// The next event and the instant at which it happens.
pub open spec fn next_event_and_time_spec(st: StateModel) -> (SimulationEvent, u64) {
    if st.requests_left == 0 {
        (SimulationEvent::StopSimulation, st.next_idle_at)
    } else if st.next_arrival_at < st.next_any_idle_at {
        if all_occupied(st.buf) {
            (SimulationEvent::PutNewRequestToFullBuffer, st.next_arrival_at)
        } else {
            (SimulationEvent::PutNewRequestToBuffer, st.next_arrival_at)
        }
    } else if all_vacant(st.buf) {
        (SimulationEvent::ProcessNewRequest, st.next_arrival_at)
    } else {
        (SimulationEvent::ProcessRequestFromBuffer, st.next_any_idle_at)
    }
}

/// A request arrives at this event.
pub open spec fn is_arrival(e: SimulationEvent) -> bool {
    e == SimulationEvent::PutNewRequestToFullBuffer || e == SimulationEvent::PutNewRequestToBuffer
        || e == SimulationEvent::ProcessNewRequest
}

/// A device takes a request at this event.
pub open spec fn is_service(e: SimulationEvent) -> bool {
    e == SimulationEvent::ProcessNewRequest || e == SimulationEvent::ProcessRequestFromBuffer
}

/// The request that arrives at the current instant.
pub open spec fn arriving_request(st: StateModel) -> Request {
    Request { time_arrived: st.next_arrival_at, src_num: st.s_next_arrival }
}

/// The source due first (the first one holding the smallest time) gets its
/// next arrival `arrival_cd` later and counts one more request.
pub open spec fn advanced_sources(st: StateModel, arrival_cd: u64) -> (Seq<u64>, Seq<usize>) {
    let p = first_min_index(st.sources);
    (
        st.sources.update(p, (seq_min(st.sources) + arrival_cd) as u64),
        st.s_requests_count.update(p, (st.s_requests_count[p] + 1) as usize),
    )
}

/// Sources after the step: every event but serving from the buffer advances
/// the source due first.
pub open spec fn sources_after(m: SimulationModel, arrival_cd: u64) -> (Seq<u64>, Seq<usize>) {
    if m.current_event == SimulationEvent::ProcessRequestFromBuffer {
        (m.state.sources, m.state.s_requests_count)
    } else {
        advanced_sources(m.state, arrival_cd)
    }
}

/// The device that takes a request: the first free one from the pointer on,
/// else the first free one from the start.
pub open spec fn free_device_index(m: SimulationModel) -> int {
    match first_at_most(m.state.devices, m.current_time, m.state.device_pointer as int) {
        Some(a) => a,
        None => match first_at_most(m.state.devices, m.current_time, 0) {
            Some(a) => a,
            None => 0,
        },
    }
}

/// The free device taken becomes busy for `service_time`; the pointer, not
/// yet wrapped, moves past it.
pub open spec fn picked_device(m: SimulationModel, service_time: u64) -> (Seq<u64>, usize) {
    let a = free_device_index(m);
    (m.state.devices.update(a, (m.current_time + service_time) as u64), (a + 1) as usize)
}

/// Devices after the step, and the device pointer before it is wrapped.
pub open spec fn devices_after(m: SimulationModel, service_time: u64) -> (Seq<u64>, usize) {
    if is_service(m.current_event) {
        picked_device(m, service_time)
    } else {
        (m.state.devices, m.state.device_pointer)
    }
}

/// The slot that takes a buffered request: the first empty one from the
/// pointer on, else the first empty one from the start.
pub open spec fn vacant_slot_index(st: StateModel) -> int {
    match first_vacant(st.buf, st.buf_pointer as int) {
        Some(a) => a,
        None => match first_vacant(st.buf, 0) {
            Some(a) => a,
            None => 0,
        },
    }
}

/// The arriving request takes the chosen empty slot; the pointer, not yet
/// wrapped, moves past it.
pub open spec fn buffer_with_arrival(st: StateModel) -> (Seq<Option<Request>>, usize) {
    let a = vacant_slot_index(st);
    (st.buf.update(a, Some(arriving_request(st))), (a + 1) as usize)
}

/// The index of the first slot holding `x`.
pub open spec fn slot_of(b: Seq<Option<Request>>, x: Option<Request>) -> int {
    match first_holding(b, x, 0) {
        Some(i) => i,
        None => 0,
    }
}

/// The buffer after the step, and the buffer pointer before it is wrapped.
pub open spec fn buffer_after(m: SimulationModel) -> (Seq<Option<Request>>, usize) {
    let st = m.state;
    let arriving = Some(arriving_request(st));
    match m.current_event {
        SimulationEvent::PutNewRequestToFullBuffer => {
            let oldest = earliest_request(st.buf);
            (replace_slots(st.buf, oldest, arriving), (slot_of(st.buf, oldest) + 1) as usize)
        },
        SimulationEvent::PutNewRequestToBuffer => buffer_with_arrival(st),
        SimulationEvent::ProcessRequestFromBuffer => (
            replace_slots(st.buf, latest_request(st.buf), None),
            st.buf_pointer,
        ),
        _ => (st.buf, st.buf_pointer),
    }
}

/// Requests processed and requests left after the step.
pub open spec fn requests_after(m: SimulationModel) -> (usize, usize) {
    let st = m.state;
    match m.current_event {
        SimulationEvent::PutNewRequestToFullBuffer => (
            st.requests_processed,
            (st.requests_left - 1) as usize,
        ),
        SimulationEvent::PutNewRequestToBuffer => (st.requests_processed, st.requests_left),
        _ => ((st.requests_processed + 1) as usize, (st.requests_left - 1) as usize),
    }
}

/// Requests denied after the step.
pub open spec fn denied_after(m: SimulationModel) -> usize {
    if m.current_event == SimulationEvent::PutNewRequestToFullBuffer {
        (m.state.requests_denied + 1) as usize
    } else {
        m.state.requests_denied
    }
}

/// Time the oldest buffered request has waited.
pub open spec fn oldest_wait(m: SimulationModel) -> int {
    m.current_time - earliest_request(m.state.buf)->0.time_arrived
}

/// Time the latest buffered request has waited.
pub open spec fn latest_wait(m: SimulationModel) -> int {
    m.current_time - latest_request(m.state.buf)->0.time_arrived
}

/// Total time in the buffer after the step: a request leaving the buffer
/// (denied or served) adds its wait.
pub open spec fn buffer_time_after(m: SimulationModel) -> u64 {
    let total = m.state.total_time_in_buffer;
    match m.current_event {
        SimulationEvent::PutNewRequestToFullBuffer => (total + oldest_wait(m)) as u64,
        SimulationEvent::ProcessRequestFromBuffer => (total + latest_wait(m)) as u64,
        _ => total,
    }
}

/// Total busy time of the devices after the step.
pub open spec fn busy_time_after(m: SimulationModel, service_time: u64) -> u64 {
    if is_service(m.current_event) {
        (m.state.total_time_devices_busy + service_time) as u64
    } else {
        m.state.total_time_devices_busy
    }
}

/// Per source processed requests: a service counts one more for the source
/// due next.
pub open spec fn s_processed_after(m: SimulationModel) -> Seq<usize> {
    let st = m.state;
    let k = st.s_next_arrival as int;
    match m.current_event {
        SimulationEvent::PutNewRequestToFullBuffer => st.s_requests_processed,
        SimulationEvent::PutNewRequestToBuffer => st.s_requests_processed,
        _ => st.s_requests_processed.update(k, (st.s_requests_processed[k] + 1) as usize),
    }
}

/// Per source denied requests: a denial counts one more for the source due
/// next.
pub open spec fn s_denied_after(m: SimulationModel) -> Seq<usize> {
    let st = m.state;
    let k = st.s_next_arrival as int;
    if m.current_event == SimulationEvent::PutNewRequestToFullBuffer {
        st.s_requests_denied.update(k, (st.s_requests_denied[k] + 1) as usize)
    } else {
        st.s_requests_denied
    }
}

/// Per source buffer time. Serving from the buffer charges the served
/// request's source with the wait of the oldest buffered request.
pub open spec fn s_buffer_time_after(m: SimulationModel) -> Seq<u64> {
    let st = m.state;
    let v = st.s_time_spent_in_buffer;
    match m.current_event {
        SimulationEvent::PutNewRequestToFullBuffer => {
            let k = earliest_request(st.buf)->0.src_num as int;
            v.update(k, (v[k] + oldest_wait(m)) as u64)
        },
        SimulationEvent::ProcessRequestFromBuffer => {
            let k = latest_request(st.buf)->0.src_num as int;
            v.update(k, (v[k] + oldest_wait(m)) as u64)
        },
        _ => v,
    }
}

/// Per source busy time: a service charges the served request's source.
pub open spec fn s_busy_time_after(m: SimulationModel, service_time: u64) -> Seq<u64> {
    let st = m.state;
    let v = st.s_time_devices_busy;
    match m.current_event {
        SimulationEvent::ProcessNewRequest => {
            let k = st.s_next_arrival as int;
            v.update(k, (v[k] + service_time) as u64)
        },
        SimulationEvent::ProcessRequestFromBuffer => {
            let k = latest_request(st.buf)->0.src_num as int;
            v.update(k, (v[k] + service_time) as u64)
        },
        _ => v,
    }
}

/// Per source time in the system: buffer time plus service time.
pub open spec fn s_system_time_after(len: nat, buffer: Seq<u64>, busy: Seq<u64>) -> Seq<u64> {
    Seq::new(len, |i: int| (buffer[i] + busy[i]) as u64)
}

/// The state after the current event has taken place.
pub open spec fn new_state_spec(m: SimulationModel, arrival_cd: u64, service_time: u64) -> StateModel {
    let st = m.state;
    if m.current_event == SimulationEvent::StopSimulation {
        st
    } else {
        let (sources, counts) = sources_after(m, arrival_cd);
        let (devices, dp) = devices_after(m, service_time);
        let (buf, bp) = buffer_after(m);
        let (processed, left) = requests_after(m);
        let buffer_time = buffer_time_after(m);
        let busy_time = busy_time_after(m, service_time);
        let s_buffer = s_buffer_time_after(m);
        let s_busy = s_busy_time_after(m, service_time);
        StateModel {
            sources: sources,
            devices: devices,
            device_pointer: (dp % m.max_devices) as usize,
            buf: buf,
            buf_pointer: (bp % m.max_buf_length) as usize,
            next_idle_at: seq_max(devices),
            next_any_idle_at: seq_min(devices),
            next_arrival_at: seq_min(sources),
            requests_processed: processed,
            requests_left: left,
            requests_denied: denied_after(m),
            total_time_in_buffer: buffer_time,
            total_time_devices_busy: busy_time,
            total_time_spent_in_system: (buffer_time + busy_time) as u64,
            s_requests_count: counts,
            s_next_arrival: first_min_index(sources) as usize,
            s_requests_processed: s_processed_after(m),
            s_requests_denied: s_denied_after(m),
            s_time_spent_in_system: s_system_time_after(
                st.s_time_spent_in_system.len(),
                s_buffer,
                s_busy,
            ),
            s_time_spent_in_buffer: s_buffer,
            s_time_devices_busy: s_busy,
        }
    }
}

/// One step of the simulation: a stopped simulation stays as it is; any other
/// takes its current event and moves to the next one.
pub open spec fn step_spec(m: SimulationModel, arrival_cd: u64, service_time: u64) -> SimulationModel {
    if m.current_event == SimulationEvent::StopSimulation {
        m
    } else {
        let st = new_state_spec(m, arrival_cd, service_time);
        let (e, t) = next_event_and_time_spec(st);
        SimulationModel {
            max_sources: m.max_sources,
            max_devices: m.max_devices,
            max_buf_length: m.max_buf_length,
            average_arrival_cd: m.average_arrival_cd,
            average_device_cd: m.average_device_cd,
            state: st,
            current_event: e,
            current_time: t,
        }
    }
}

// ---------------------------------------------------------------------------
// Well-formed simulations
// ---------------------------------------------------------------------------

/// The shape of a simulation: one entry per source, device and buffer slot,
/// pointers in range.
pub open spec fn well_shaped(m: SimulationModel) -> bool {
    let st = m.state;
    &&& m.max_sources > 0
    &&& st.sources.len() == m.max_sources
    &&& st.s_requests_count.len() == m.max_sources
    &&& st.s_requests_processed.len() == m.max_sources
    &&& st.s_requests_denied.len() == m.max_sources
    &&& st.s_time_spent_in_system.len() == m.max_sources
    &&& st.s_time_spent_in_buffer.len() == m.max_sources
    &&& st.s_time_devices_busy.len() == m.max_sources
    &&& m.max_devices > 0
    &&& st.devices.len() == m.max_devices
    &&& st.device_pointer < m.max_devices
    &&& m.max_buf_length > 0
    &&& st.buf.len() == m.max_buf_length
    &&& st.buf_pointer < m.max_buf_length
}

/// A well-formed simulation: well shaped; every buffered request comes from a
/// known source and arrived no later than now; the cached times are the
/// extrema of the devices and sources; the request counters fit in a `usize`
/// together; the current event is the one the state calls for.
pub open spec fn well_formed(m: SimulationModel) -> bool {
    let st = m.state;
    &&& well_shaped(m)
    &&& forall|i: int|
        0 <= i < st.buf.len() && (#[trigger] st.buf[i]) is Some ==> st.buf[i]->0.src_num
            < m.max_sources && st.buf[i]->0.time_arrived <= m.current_time
    &&& st.next_idle_at == seq_max(st.devices)
    &&& st.next_any_idle_at == seq_min(st.devices)
    &&& st.next_arrival_at == seq_min(st.sources)
    &&& st.s_next_arrival == first_min_index(st.sources)
    &&& st.requests_processed + st.requests_denied + st.requests_left <= usize::MAX
    &&& (m.current_event, m.current_time) == next_event_and_time_spec(st)
}

/// The step's arithmetic stays within the integer types.
pub open spec fn step_fits(m: SimulationModel, arrival_cd: u64, service_time: u64) -> bool {
    let st = m.state;
    let e = m.current_event;
    let t = m.current_time;
    let k = st.s_next_arrival as int;
    let p = first_min_index(st.sources);
    let oldest = earliest_request(st.buf)->0;
    let latest = latest_request(st.buf)->0;
    e != SimulationEvent::StopSimulation ==> {
        &&& e != SimulationEvent::ProcessRequestFromBuffer ==> {
            &&& seq_min(st.sources) + arrival_cd <= u64::MAX
            &&& st.s_requests_count[p] + 1 <= usize::MAX
        }
        &&& is_service(e) ==> {
            &&& t + service_time <= u64::MAX
            &&& st.total_time_devices_busy + service_time <= u64::MAX
            &&& st.s_requests_processed[k] + 1 <= usize::MAX
        }
        &&& e == SimulationEvent::ProcessNewRequest ==> st.s_time_devices_busy[k] + service_time
            <= u64::MAX
        &&& e == SimulationEvent::ProcessRequestFromBuffer ==> {
            &&& st.s_time_devices_busy[latest.src_num as int] + service_time <= u64::MAX
            &&& st.total_time_in_buffer + latest_wait(m) <= u64::MAX
            &&& st.s_time_spent_in_buffer[latest.src_num as int] + oldest_wait(m) <= u64::MAX
        }
        &&& e == SimulationEvent::PutNewRequestToFullBuffer ==> {
            &&& st.s_requests_denied[k] + 1 <= usize::MAX
            &&& st.total_time_in_buffer + oldest_wait(m) <= u64::MAX
            &&& st.s_time_spent_in_buffer[oldest.src_num as int] + oldest_wait(m) <= u64::MAX
        }
        &&& buffer_time_after(m) + busy_time_after(m, service_time) <= u64::MAX
        &&& forall|i: int|
            0 <= i < st.s_time_spent_in_system.len() ==> #[trigger] s_buffer_time_after(m)[i]
                + s_busy_time_after(m, service_time)[i] <= u64::MAX
    }
}

/// What a well-formed simulation whose current event is not a stop offers
/// to that event.
pub proof fn lemma_active(m: SimulationModel)
    requires
        well_formed(m),
        m.current_event != SimulationEvent::StopSimulation,
    ensures
        m.state.requests_left >= 1,
        m.state.s_next_arrival < m.max_sources,
        first_at_most(m.state.sources, seq_min(m.state.sources), 0) == Some(
            m.state.s_next_arrival as int,
        ),
        m.current_event == SimulationEvent::PutNewRequestToFullBuffer ==> all_occupied(m.state.buf),
        m.current_event == SimulationEvent::PutNewRequestToBuffer ==> first_vacant(m.state.buf, 0) is Some,
        m.current_event == SimulationEvent::ProcessNewRequest ==> all_vacant(m.state.buf),
        is_arrival(m.current_event) ==> m.current_time == m.state.next_arrival_at,
        m.current_event == SimulationEvent::ProcessRequestFromBuffer ==> m.current_time
            == m.state.next_any_idle_at,
        is_service(m.current_event) ==> first_at_most(m.state.devices, m.current_time, 0) is Some,
        (m.current_event == SimulationEvent::PutNewRequestToFullBuffer || m.current_event
            == SimulationEvent::ProcessRequestFromBuffer) ==> {
            let o = earliest_request(m.state.buf);
            let l = latest_request(m.state.buf);
            &&& o is Some
            &&& l is Some
            &&& first_holding(m.state.buf, o, 0) is Some
            &&& o->0.time_arrived <= m.current_time
            &&& l->0.time_arrived <= m.current_time
            &&& o->0.src_num < m.max_sources
            &&& l->0.src_num < m.max_sources
        },
{
    let st = m.state;
    let e = m.current_event;
    lemma_first_min_index(st.sources);
    lemma_seq_min(st.devices);
    lemma_earliest_request(st.buf);
    lemma_latest_request(st.buf);
    lemma_first_vacant(st.buf, 0);
    lemma_first_at_most(st.devices, m.current_time, 0);
    if is_service(e) {
        let w = choose|i: int| 0 <= i < st.devices.len() && st.devices[i] == seq_min(st.devices);
        assert(st.devices[w] <= m.current_time);
    }
    if e == SimulationEvent::PutNewRequestToFullBuffer {
        assert(st.buf[0] is Some);
    }
    if e == SimulationEvent::PutNewRequestToFullBuffer || e
        == SimulationEvent::ProcessRequestFromBuffer {
        let o = earliest_request(st.buf);
        let l = latest_request(st.buf);
        assert(o is Some);
        let wo = choose|i: int| 0 <= i < st.buf.len() && st.buf[i] == Some(o->0);
        let wl = choose|i: int| 0 <= i < st.buf.len() && st.buf[i] == Some(l->0);
        assert(st.buf[wo] is Some);
        assert(st.buf[wl] is Some);
        lemma_first_holding(st.buf, o, 0);
    }
}

/// Sum of a sequence of counts.
pub open spec fn count_sum(s: Seq<usize>) -> int
    decreases s.len(),
{
    if s.len() == 0 {
        0
    } else {
        count_sum(s.drop_last()) + s.last()
    }
}

/// Sum of a sequence of durations.
pub open spec fn time_sum(s: Seq<u64>) -> int
    decreases s.len(),
{
    if s.len() == 0 {
        0
    } else {
        time_sum(s.drop_last()) + s.last()
    }
}

/// The statistics of a simulation agree with each other: the per source
/// counts of processed and denied requests and of device time add up to the
/// totals, and time in the system is time in the buffer plus time in service,
/// in total and per source.
pub open spec fn statistics_consistent(m: SimulationModel) -> bool {
    let st = m.state;
    &&& count_sum(st.s_requests_processed) == st.requests_processed
    &&& count_sum(st.s_requests_denied) == st.requests_denied
    &&& time_sum(st.s_time_devices_busy) == st.total_time_devices_busy
    &&& st.total_time_spent_in_system == st.total_time_in_buffer + st.total_time_devices_busy
    &&& st.s_time_spent_in_system.len() == st.s_time_spent_in_buffer.len()
    &&& st.s_time_spent_in_system.len() == st.s_time_devices_busy.len()
    &&& forall|i: int|
        0 <= i < st.s_time_spent_in_system.len() ==> #[trigger] st.s_time_spent_in_system[i]
            == st.s_time_spent_in_buffer[i] + st.s_time_devices_busy[i]
}

/// Number of empty slots of the buffer.
pub open spec fn count_vacant(b: Seq<Option<Request>>) -> int
    decreases b.len(),
{
    if b.len() == 0 {
        0
    } else {
        count_vacant(b.drop_last()) + if b.last() is None {
            1int
        } else {
            0int
        }
    }
}

/// A measure of the work a simulation has left: every request left may still
/// pass through the buffer, and every empty slot may still be filled.
pub open spec fn remaining_work(m: SimulationModel) -> int {
    m.state.requests_left * (m.state.buf.len() + 1) + count_vacant(m.state.buf)
}

// ---------------------------------------------------------------------------
// Facts about the definitions

/// The number of empty slots is between zero and the capacity.
pub proof fn lemma_count_vacant_bounds(b: Seq<Option<Request>>)
    ensures
        0 <= count_vacant(b) <= b.len(),
    decreases b.len(),
{
    if b.len() > 0 {
        lemma_count_vacant_bounds(b.drop_last());
    }
}

/// Two buffers empty at the same slots have as many empty slots.
pub proof fn lemma_count_vacant_same_shape(b1: Seq<Option<Request>>, b2: Seq<Option<Request>>)
    requires
        b1.len() == b2.len(),
        forall|i: int| 0 <= i < b1.len() ==> (#[trigger] b1[i] is None) == (b2[i] is None),
    ensures
        count_vacant(b1) == count_vacant(b2),
    decreases b1.len(),
{
    if b1.len() > 0 {
        let d1 = b1.drop_last();
        let d2 = b2.drop_last();
        assert forall|i: int| 0 <= i < d1.len() implies (#[trigger] d1[i] is None) == (d2[i] is None) by {
            assert(d1[i] == b1[i]);
            assert(d2[i] == b2[i]);
        }
        lemma_count_vacant_same_shape(d1, d2);
    }
}

/// Filling an empty slot leaves one empty slot less.
pub proof fn lemma_count_vacant_fill(b: Seq<Option<Request>>, k: int, r: Request)
    requires
        0 <= k < b.len(),
        b[k] is None,
    ensures
        count_vacant(b.update(k, Some(r))) == count_vacant(b) - 1,
    decreases b.len(),
{
    let u = b.update(k, Some(r));
    if k < b.len() - 1 {
        assert(u.drop_last() =~= b.drop_last().update(k, Some(r)));
        lemma_count_vacant_fill(b.drop_last(), k, r);
    } else {
        assert(u.drop_last() =~= b.drop_last());
    }
}

/// Changing one count changes the sum by the difference.
pub proof fn lemma_count_sum_update(s: Seq<usize>, k: int, v: usize)
    requires
        0 <= k < s.len(),
    ensures
        count_sum(s.update(k, v)) == count_sum(s) - s[k] + v,
    decreases s.len(),
{
    let u = s.update(k, v);
    if k < s.len() - 1 {
        lemma_count_sum_update(s.drop_last(), k, v);
        assert(u.drop_last() =~= s.drop_last().update(k, v));
    } else {
        assert(u.drop_last() =~= s.drop_last());
    }
}

/// Changing one duration changes the sum by the difference.
pub proof fn lemma_time_sum_update(s: Seq<u64>, k: int, v: u64)
    requires
        0 <= k < s.len(),
    ensures
        time_sum(s.update(k, v)) == time_sum(s) - s[k] + v,
    decreases s.len(),
{
    let u = s.update(k, v);
    if k < s.len() - 1 {
        lemma_time_sum_update(s.drop_last(), k, v);
        assert(u.drop_last() =~= s.drop_last().update(k, v));
    } else {
        assert(u.drop_last() =~= s.drop_last());
    }
}
// ---------------------------------------------------------------------------

pub proof fn lemma_seq_min(s: Seq<u64>)
    requires
        s.len() > 0,
    ensures
        forall|i: int| 0 <= i < s.len() ==> seq_min(s) <= #[trigger] s[i],
        exists|i: int| 0 <= i < s.len() && s[i] == seq_min(s),
    decreases s.len(),
{
    if s.len() > 1 {
        lemma_seq_min(s.drop_last());
        let w = choose|i: int| 0 <= i < s.drop_last().len() && s.drop_last()[i] == seq_min(s.drop_last());
        if s.last() < seq_min(s.drop_last()) {
            assert(s[s.len() - 1] == seq_min(s));
        } else {
            assert(s[w] == seq_min(s));
        }
        assert forall|i: int| 0 <= i < s.len() implies seq_min(s) <= #[trigger] s[i] by {
            if i < s.len() - 1 {
                assert(s[i] == s.drop_last()[i]);
            }
        }
    } else {
        assert(s[0] == seq_min(s));
    }
}

pub proof fn lemma_seq_max(s: Seq<u64>)
    requires
        s.len() > 0,
    ensures
        forall|i: int| 0 <= i < s.len() ==> #[trigger] s[i] <= seq_max(s),
        exists|i: int| 0 <= i < s.len() && s[i] == seq_max(s),
    decreases s.len(),
{
    if s.len() > 1 {
        lemma_seq_max(s.drop_last());
        let w = choose|i: int| 0 <= i < s.drop_last().len() && s.drop_last()[i] == seq_max(s.drop_last());
        if s.last() > seq_max(s.drop_last()) {
            assert(s[s.len() - 1] == seq_max(s));
        } else {
            assert(s[w] == seq_max(s));
        }
        assert forall|i: int| 0 <= i < s.len() implies #[trigger] s[i] <= seq_max(s) by {
            if i < s.len() - 1 {
                assert(s[i] == s.drop_last()[i]);
            }
        }
    } else {
        assert(s[0] == seq_max(s));
    }
}

/// What `first_at_most` finds, and that it finds something whenever it can.
pub proof fn lemma_first_at_most(s: Seq<u64>, bound: u64, from: int)
    requires
        0 <= from,
    ensures
        first_at_most(s, bound, from) matches Some(i) ==> from <= i < s.len() && s[i] <= bound
            && forall|k: int| from <= k < i ==> s[k] > bound,
        first_at_most(s, bound, from) is None ==> forall|k: int|
            from <= k < s.len() ==> s[k] > bound,
    decreases s.len() - from,
{
    if from < s.len() && s[from] > bound {
        lemma_first_at_most(s, bound, from + 1);
    }
}

pub proof fn lemma_first_vacant(b: Seq<Option<Request>>, from: int)
    requires
        0 <= from,
    ensures
        first_vacant(b, from) matches Some(i) ==> from <= i < b.len() && b[i] is None && forall|
            k: int,
        |
            from <= k < i ==> b[k] is Some,
        first_vacant(b, from) is None ==> forall|k: int| from <= k < b.len() ==> b[k] is Some,
    decreases b.len() - from,
{
    if from < b.len() && b[from] is Some {
        lemma_first_vacant(b, from + 1);
    }
}

pub proof fn lemma_first_holding(b: Seq<Option<Request>>, x: Option<Request>, from: int)
    requires
        0 <= from,
    ensures
        first_holding(b, x, from) matches Some(i) ==> from <= i < b.len() && b[i] == x && forall|
            k: int,
        |
            from <= k < i ==> b[k] != x,
        first_holding(b, x, from) is None ==> forall|k: int| from <= k < b.len() ==> b[k] != x,
    decreases b.len() - from,
{
    if from < b.len() && b[from] != x {
        lemma_first_holding(b, x, from + 1);
    }
}

/// The first minimal index is in range and holds the minimum.
pub proof fn lemma_first_min_index(s: Seq<u64>)
    requires
        s.len() > 0,
    ensures
        0 <= first_min_index(s) < s.len(),
        s[first_min_index(s)] == seq_min(s),
        first_at_most(s, seq_min(s), 0) == Some(first_min_index(s)),
{
    lemma_seq_min(s);
    lemma_first_at_most(s, seq_min(s), 0);
    let w = choose|i: int| 0 <= i < s.len() && s[i] == seq_min(s);
    assert(s[w] <= seq_min(s));
}

/// The latest request is a buffered request no earlier than any other.
pub proof fn lemma_latest_request(b: Seq<Option<Request>>)
    ensures
        latest_request(b) is None <==> all_vacant(b),
        latest_request(b) matches Some(r) ==> exists|i: int|
            0 <= i < b.len() && b[i] == Some(r),
        latest_request(b) matches Some(r) ==> forall|i: int|
            0 <= i < b.len() && (#[trigger] b[i]) is Some ==> !arrived_before(r, b[i]->0),
    decreases b.len(),
{
    if b.len() > 0 {
        let d = b.drop_last();
        lemma_latest_request(d);
        assert forall|i: int| 0 <= i < d.len() implies #[trigger] d[i] == b[i] by {}
        if latest_request(d) is Some {
            let w = choose|i: int| 0 <= i < d.len() && d[i] == latest_request(d);
            assert(b[w] == latest_request(d));
        }
        if !all_vacant(b) && b.last() is None {
            let j = choose|j: int| 0 <= j < b.len() && !(b[j] is None);
            assert(d[j] is Some);
        }
        if all_vacant(b) {
            assert(all_vacant(d));
        }
        if latest_request(b) is Some {
            assert forall|i: int|
                0 <= i < b.len() && (#[trigger] b[i]) is Some implies !arrived_before(latest_request(b)->0, b[i]->0) by {
                if i < b.len() - 1 {
                    assert(d[i] == b[i]);
                }
            }
        }
    }
}

/// The earliest request is a buffered request no later than any other.
pub proof fn lemma_earliest_request(b: Seq<Option<Request>>)
    ensures
        earliest_request(b) is None <==> all_vacant(b),
        earliest_request(b) matches Some(r) ==> exists|i: int|
            0 <= i < b.len() && b[i] == Some(r),
        earliest_request(b) matches Some(r) ==> forall|i: int|
            0 <= i < b.len() && (#[trigger] b[i]) is Some ==> !arrived_before(b[i]->0, r),
    decreases b.len(),
{
    if b.len() > 0 {
        let d = b.drop_last();
        lemma_earliest_request(d);
        assert forall|i: int| 0 <= i < d.len() implies #[trigger] d[i] == b[i] by {}
        if earliest_request(d) is Some {
            let w = choose|i: int| 0 <= i < d.len() && d[i] == earliest_request(d);
            assert(b[w] == earliest_request(d));
        }
        if !all_vacant(b) && b.last() is None {
            let j = choose|j: int| 0 <= j < b.len() && !(b[j] is None);
            assert(d[j] is Some);
        }
        if all_vacant(b) {
            assert(all_vacant(d));
        }
        if earliest_request(b) is Some {
            assert forall|i: int|
                0 <= i < b.len() && (#[trigger] b[i]) is Some implies !arrived_before(b[i]->0, earliest_request(b)->0) by {
                if i < b.len() - 1 {
                    assert(d[i] == b[i]);
                }
            }
        }
    }
}

} // verus!
