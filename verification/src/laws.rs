use vstd::prelude::*;

use crate::model::{
    arrived_before, arriving_request, buffer_after, busy_time_after, devices_after,
    earliest_request, free_device_index, is_service, latest_request, lemma_active,
    lemma_count_sum_update, lemma_count_vacant_bounds, lemma_count_vacant_fill,
    lemma_count_vacant_same_shape, lemma_earliest_request, lemma_first_at_most,
    lemma_first_holding, lemma_first_min_index, lemma_first_vacant, lemma_latest_request,
    lemma_seq_max, lemma_seq_min, lemma_time_sum_update, new_state_spec, remaining_work,
    s_buffer_time_after, s_busy_time_after, seq_max, seq_min, slot_of, statistics_consistent,
    step_fits, step_spec, vacant_slot_index, well_formed, well_shaped,
};
use crate::types::{Request, SimulationEvent, SimulationModel};

verus! {

/// The device chosen for a service is a device that is free now.
proof fn lemma_free_device(m: SimulationModel)
    requires
        well_formed(m),
        is_service(m.current_event),
    ensures
        0 <= free_device_index(m) < m.state.devices.len(),
        m.state.devices[free_device_index(m)] <= m.current_time,
{
    lemma_active(m);
    lemma_first_at_most(m.state.devices, m.current_time, 0);
    lemma_first_at_most(m.state.devices, m.current_time, m.state.device_pointer as int);
}

/// A sequence whose every element is at least `t` has its minimum at least `t`.
proof fn lemma_min_at_least(s: Seq<u64>, t: int)
    requires
        s.len() > 0,
        forall|i: int| 0 <= i < s.len() ==> t <= #[trigger] s[i],
    ensures
        t <= seq_min(s),
{
    lemma_seq_min(s);
    let w = choose|i: int| 0 <= i < s.len() && s[i] == seq_min(s);
    assert(t <= s[w]);
}

/// Before any event but a stop, every source is due no earlier than now.
proof fn lemma_sources_not_past(m: SimulationModel)
    requires
        well_formed(m),
        m.current_event != SimulationEvent::StopSimulation,
    ensures
        m.current_time <= seq_min(m.state.sources),
{
    lemma_active(m);
}

/// The clock of the simulation never goes back: the next event happens no
/// earlier than the current one.
pub proof fn lemma_time_never_goes_back(m: SimulationModel, arrival_cd: u64, service_time: u64)
    requires
        well_formed(m),
        step_fits(m, arrival_cd, service_time),
    ensures
        step_spec(m, arrival_cd, service_time).current_time >= m.current_time,
{
    if m.current_event != SimulationEvent::StopSimulation {
        let e = m.current_event;
        let t = m.current_time;
        let st = m.state;
        let st2 = new_state_spec(m, arrival_cd, service_time);
        lemma_active(m);
        lemma_sources_not_past(m);
        lemma_seq_min(st.sources);
        lemma_seq_min(st.devices);
        lemma_seq_max(st.devices);
        lemma_first_min_index(st.sources);
        // every source is due no earlier than now
        assert forall|i: int| 0 <= i < st2.sources.len() implies t <= #[trigger] st2.sources[i] by {
            assert(st.sources[i] >= seq_min(st.sources));
        }
        lemma_min_at_least(st2.sources, t as int);
        if is_service(e) {
            lemma_free_device(m);
        }
        assert(st2.devices.len() == st.devices.len());
        lemma_seq_max(st2.devices);
        if is_service(e) {
            let a = free_device_index(m);
            assert(st2.devices[a] == t + service_time);
            assert forall|i: int| 0 <= i < st2.devices.len() implies
                e == SimulationEvent::ProcessRequestFromBuffer ==> t <= #[trigger] st2.devices[i] by {
                if i != a {
                    assert(st.devices[i] >= seq_min(st.devices));
                }
            }
            if e == SimulationEvent::ProcessRequestFromBuffer {
                lemma_min_at_least(st2.devices, t as int);
            }
        } else {
            // the arrival came before any device frees up
            assert forall|i: int| 0 <= i < st2.devices.len() implies t <= #[trigger] st2.devices[i] by {
                assert(st.devices[i] >= seq_min(st.devices));
            }
            lemma_min_at_least(st2.devices, t as int);
            assert(st2.devices[0] <= seq_max(st2.devices));
        }
    }
}

/// The slot chosen for a buffered arrival is empty.
proof fn lemma_vacant_slot(m: SimulationModel)
    requires
        well_formed(m),
        m.current_event == SimulationEvent::PutNewRequestToBuffer,
    ensures
        0 <= vacant_slot_index(m.state) < m.state.buf.len(),
        m.state.buf[vacant_slot_index(m.state)] is None,
{
    lemma_active(m);
    lemma_first_vacant(m.state.buf, 0);
    lemma_first_vacant(m.state.buf, m.state.buf_pointer as int);
}

/// Every step keeps a simulation well formed: its shape, its buffered
/// requests (from known sources, arrived no later than now), its cached
/// extrema, its request counters and the agreement of its current event with
/// its state.
pub proof fn lemma_step_keeps_well_formed(m: SimulationModel, arrival_cd: u64, service_time: u64)
    requires
        well_formed(m),
        step_fits(m, arrival_cd, service_time),
    ensures
        well_formed(step_spec(m, arrival_cd, service_time)),
{
    if m.current_event != SimulationEvent::StopSimulation {
        let e = m.current_event;
        let st = m.state;
        let m2 = step_spec(m, arrival_cd, service_time);
        let st2 = m2.state;
        lemma_active(m);
        lemma_time_never_goes_back(m, arrival_cd, service_time);
        lemma_first_min_index(st.sources);
        if is_service(e) {
            lemma_free_device(m);
        }
        if e == SimulationEvent::PutNewRequestToBuffer {
            lemma_vacant_slot(m);
        }
        assert(well_shaped(m2)) by {
            let dp = devices_after(m, service_time).1;
            let bp = buffer_after(m).1;
            assert(dp % m.max_devices < m.max_devices) by (nonlinear_arith)
                requires
                    m.max_devices > 0,
            ;
            assert(bp % m.max_buf_length < m.max_buf_length) by (nonlinear_arith)
                requires
                    m.max_buf_length > 0,
            ;
        }
        lemma_first_min_index(st2.sources);
        let arriving = Some(arriving_request(st));
        assert forall|i: int| 0 <= i < st2.buf.len() && (#[trigger] st2.buf[i]) is Some implies
            st2.buf[i]->0.src_num < m2.max_sources && st2.buf[i]->0.time_arrived
            <= m2.current_time by {
            if st2.buf[i] != st.buf[i] {
                assert(st2.buf[i] == arriving);
            }
        }
    }
}

/// A stopped simulation stays stopped and unchanged, whatever comes next.
pub proof fn lemma_stop_is_final(m: SimulationModel, arrival_cd: u64, service_time: u64)
    requires
        m.current_event == SimulationEvent::StopSimulation,
    ensures
        step_spec(m, arrival_cd, service_time) == m,
{
}

/// Every request is accounted for exactly once: a step never changes
/// processed + denied + left; processed and denied requests never decrease,
/// and requests left never increase and fall by at most one per step.
pub proof fn lemma_requests_conserved(m: SimulationModel, arrival_cd: u64, service_time: u64)
    requires
        well_formed(m),
        step_fits(m, arrival_cd, service_time),
    ensures
        ({
            let st = m.state;
            let st2 = step_spec(m, arrival_cd, service_time).state;
            &&& st2.requests_processed + st2.requests_denied + st2.requests_left
                == st.requests_processed + st.requests_denied + st.requests_left
            &&& st2.requests_processed >= st.requests_processed
            &&& st2.requests_denied >= st.requests_denied
            &&& st2.requests_left <= st.requests_left
            &&& st2.requests_left + 1 >= st.requests_left
        }),
{
    if m.current_event != SimulationEvent::StopSimulation {
        lemma_active(m);
    }
}

/// Every step keeps the statistics consistent with each other.
pub proof fn lemma_step_keeps_statistics(m: SimulationModel, arrival_cd: u64, service_time: u64)
    requires
        well_formed(m),
        step_fits(m, arrival_cd, service_time),
        statistics_consistent(m),
    ensures
        statistics_consistent(step_spec(m, arrival_cd, service_time)),
{
    if m.current_event != SimulationEvent::StopSimulation {
        let e = m.current_event;
        let st = m.state;
        let st2 = step_spec(m, arrival_cd, service_time).state;
        let k = st.s_next_arrival as int;
        lemma_active(m);
        if is_service(e) {
            lemma_count_sum_update(
                st.s_requests_processed,
                k,
                (st.s_requests_processed[k] + 1) as usize,
            );
        }
        if e == SimulationEvent::PutNewRequestToFullBuffer {
            lemma_count_sum_update(st.s_requests_denied, k, (st.s_requests_denied[k] + 1) as usize);
        }
        if e == SimulationEvent::ProcessNewRequest {
            lemma_time_sum_update(
                st.s_time_devices_busy,
                k,
                (st.s_time_devices_busy[k] + service_time) as u64,
            );
        }
        if e == SimulationEvent::ProcessRequestFromBuffer {
            let j = latest_request(st.buf)->0.src_num as int;
            lemma_time_sum_update(
                st.s_time_devices_busy,
                j,
                (st.s_time_devices_busy[j] + service_time) as u64,
            );
        }
    }
}

/// A well-formed simulation with no request left is stopped.
pub proof fn lemma_stops_when_no_request_left(m: SimulationModel)
    requires
        well_formed(m),
        m.state.requests_left == 0,
    ensures
        m.current_event == SimulationEvent::StopSimulation,
{
}

/// Every simulation stops: each step of a running simulation lowers its
/// remaining work, which never goes below zero, so a run from `m` stops after
/// at most `remaining_work(m)` steps.
pub proof fn lemma_running_simulation_progresses(
    m: SimulationModel,
    arrival_cd: u64,
    service_time: u64,
)
    requires
        well_formed(m),
        step_fits(m, arrival_cd, service_time),
        m.current_event != SimulationEvent::StopSimulation,
    ensures
        0 <= remaining_work(step_spec(m, arrival_cd, service_time)) < remaining_work(m),
{
    let e = m.current_event;
    let st = m.state;
    let st2 = step_spec(m, arrival_cd, service_time).state;
    let len = st.buf.len();
    lemma_active(m);
    lemma_count_vacant_bounds(st.buf);
    lemma_count_vacant_bounds(st2.buf);
    assert(st2.buf.len() == len) by {
        if e == SimulationEvent::PutNewRequestToBuffer {
            lemma_vacant_slot(m);
        }
    }
    let l = st.requests_left as int;
    let l2 = st2.requests_left as int;
    assert(0 <= l2 * (len + 1)) by (nonlinear_arith)
        requires
            0 <= l2,
            0 <= len,
    ;
    if e == SimulationEvent::PutNewRequestToBuffer {
        lemma_vacant_slot(m);
        lemma_count_vacant_fill(st.buf, vacant_slot_index(st), arriving_request(st));
    } else {
        assert((l - 1) * (len + 1) == l * (len + 1) - (len + 1)) by (nonlinear_arith);
        if e == SimulationEvent::PutNewRequestToFullBuffer {
            assert forall|i: int| 0 <= i < len implies (#[trigger] st.buf[i] is None) == (
            st2.buf[i] is None) by {}
            lemma_count_vacant_same_shape(st.buf, st2.buf);
        }
    }
}

/// An arrival to a full buffer denies the oldest buffered request (least
/// arrival time, then least source): every slot holding it now holds the
/// arriving request, every other slot is unchanged, and the buffer pointer
/// moves past the first slot that held it.
pub proof fn lemma_full_buffer_denies_oldest(m: SimulationModel, arrival_cd: u64, service_time: u64)
    requires
        well_formed(m),
        step_fits(m, arrival_cd, service_time),
        m.current_event == SimulationEvent::PutNewRequestToFullBuffer,
    ensures
        ({
            let st = m.state;
            let st2 = step_spec(m, arrival_cd, service_time).state;
            let len = st.buf.len();
            let arriving = Request { time_arrived: m.current_time, src_num: st.s_next_arrival };
            exists|j: int|
                #![trigger st.buf[j]]
                0 <= j < len && st.buf[j] is Some && {
                    let r = st.buf[j]->0;
                    &&& forall|i: int|
                        0 <= i < len && (#[trigger] st.buf[i]) is Some ==> r.time_arrived
                            < st.buf[i]->0.time_arrived || (r.time_arrived
                            == st.buf[i]->0.time_arrived && r.src_num <= st.buf[i]->0.src_num)
                    &&& forall|k: int| 0 <= k < j ==> st.buf[k] != st.buf[j]
                    &&& st2.buf.len() == len
                    &&& forall|k: int|
                        0 <= k < len ==> #[trigger] st2.buf[k] == if st.buf[k] == st.buf[j] {
                            Some(arriving)
                        } else {
                            st.buf[k]
                        }
                    &&& st2.buf_pointer == (j + 1) % (len as int)
                }
        }),
{
    let st = m.state;
    let st2 = step_spec(m, arrival_cd, service_time).state;
    let len = st.buf.len();
    lemma_active(m);
    lemma_earliest_request(st.buf);
    let o = earliest_request(st.buf);
    lemma_first_holding(st.buf, o, 0);
    let j = slot_of(st.buf, o);
    assert(st.buf[j] == o);
    assert(0 <= j < len);
    assert forall|i: int| 0 <= i < len && (#[trigger] st.buf[i]) is Some implies o->0.time_arrived
        < st.buf[i]->0.time_arrived || (o->0.time_arrived == st.buf[i]->0.time_arrived
        && o->0.src_num <= st.buf[i]->0.src_num) by {
        assert(!arrived_before(st.buf[i]->0, o->0));
    }
    assert(st2.buf.len() == len);
}

/// A service takes the first free device (idle no later than now) from the
/// device pointer on, and only when none from the pointer on is free, the
/// first free device from the start; that device becomes busy until now plus
/// the service time, every other device is unchanged, and the pointer moves
/// past it.
pub proof fn lemma_service_takes_next_free_device(
    m: SimulationModel,
    arrival_cd: u64,
    service_time: u64,
)
    requires
        well_formed(m),
        step_fits(m, arrival_cd, service_time),
        is_service(m.current_event),
    ensures
        ({
            let st = m.state;
            let st2 = step_spec(m, arrival_cd, service_time).state;
            let t = m.current_time;
            let len = st.devices.len();
            let p = st.device_pointer as int;
            exists|d: int|
                #![trigger st.devices[d]]
                0 <= d < len && st.devices[d] <= t && {
                    &&& st2.devices.len() == len
                    &&& st2.devices[d] == t + service_time
                    &&& forall|k: int| 0 <= k < len && k != d ==> #[trigger] st2.devices[k] == st.devices[k]
                    &&& st2.device_pointer == (d + 1) % (len as int)
                    &&& p <= d ==> forall|k: int| p <= k < d ==> #[trigger] st.devices[k] > t
                    &&& d < p ==> forall|k: int| p <= k < len ==> #[trigger] st.devices[k] > t
                    &&& d < p ==> forall|k: int| 0 <= k < d ==> #[trigger] st.devices[k] > t
                }
        }),
{
    let st = m.state;
    let t = m.current_time;
    lemma_free_device(m);
    lemma_first_at_most(st.devices, t, st.device_pointer as int);
    lemma_first_at_most(st.devices, t, 0);
    let d = free_device_index(m);
    assert(st.devices[d] <= t);
}

/// An arrival while every device is busy and the buffer has room takes the
/// first empty slot from the buffer pointer on, and only when none from the
/// pointer on is empty, the first empty slot from the start; every other slot
/// is unchanged and the pointer moves past the slot taken.
pub proof fn lemma_arrival_takes_next_empty_slot(
    m: SimulationModel,
    arrival_cd: u64,
    service_time: u64,
)
    requires
        well_formed(m),
        step_fits(m, arrival_cd, service_time),
        m.current_event == SimulationEvent::PutNewRequestToBuffer,
    ensures
        ({
            let st = m.state;
            let st2 = step_spec(m, arrival_cd, service_time).state;
            let len = st.buf.len();
            let p = st.buf_pointer as int;
            let arriving = Request { time_arrived: m.current_time, src_num: st.s_next_arrival };
            exists|d: int|
                #![trigger st.buf[d]]
                0 <= d < len && st.buf[d] is None && {
                    &&& st2.buf.len() == len
                    &&& st2.buf[d] == Some(arriving)
                    &&& forall|k: int| 0 <= k < len && k != d ==> #[trigger] st2.buf[k] == st.buf[k]
                    &&& st2.buf_pointer == (d + 1) % (len as int)
                    &&& p <= d ==> forall|k: int| p <= k < d ==> #[trigger] st.buf[k] is Some
                    &&& d < p ==> forall|k: int| p <= k < len ==> #[trigger] st.buf[k] is Some
                    &&& d < p ==> forall|k: int| 0 <= k < d ==> #[trigger] st.buf[k] is Some
                }
        }),
{
    let st = m.state;
    lemma_vacant_slot(m);
    lemma_active(m);
    lemma_first_vacant(st.buf, st.buf_pointer as int);
    lemma_first_vacant(st.buf, 0);
    let d = vacant_slot_index(st);
    assert(st.buf[d] is None);
}

/// Smaller draws never fail where larger ones fit: if a step fits with an
/// arrival delay and a service time, it fits with any no larger ones (a
/// service time of zero included).
pub proof fn lemma_smaller_draws_fit(
    m: SimulationModel,
    arrival_cd: u64,
    service_time: u64,
    smaller_arrival_cd: u64,
    smaller_service_time: u64,
)
    requires
        well_formed(m),
        step_fits(m, arrival_cd, service_time),
        smaller_arrival_cd <= arrival_cd,
        smaller_service_time <= service_time,
    ensures
        step_fits(m, smaller_arrival_cd, smaller_service_time),
{
    if m.current_event != SimulationEvent::StopSimulation {
        let st = m.state;
        lemma_active(m);
        assert(busy_time_after(m, smaller_service_time) <= busy_time_after(m, service_time));
        let big = s_busy_time_after(m, service_time);
        let small = s_busy_time_after(m, smaller_service_time);
        assert forall|i: int| 0 <= i < st.s_time_spent_in_system.len() implies #[trigger] small[i]
            <= big[i] by {}
        assert forall|i: int| 0 <= i < st.s_time_spent_in_system.len() implies #[trigger] s_buffer_time_after(m)[i]
            + s_busy_time_after(m, smaller_service_time)[i] <= u64::MAX by {
            assert(s_buffer_time_after(m)[i] + s_busy_time_after(m, service_time)[i] <= u64::MAX);
            assert(small[i] <= big[i]);
        }
    }
}

/// Serving from the buffer takes the latest buffered request (greatest
/// arrival time, then greatest source): every slot holding it becomes empty,
/// every other slot and the buffer pointer are unchanged.
pub proof fn lemma_buffer_service_takes_latest(m: SimulationModel, arrival_cd: u64, service_time: u64)
    requires
        well_formed(m),
        step_fits(m, arrival_cd, service_time),
        m.current_event == SimulationEvent::ProcessRequestFromBuffer,
    ensures
        ({
            let st = m.state;
            let st2 = step_spec(m, arrival_cd, service_time).state;
            let len = st.buf.len();
            exists|j: int|
                #![trigger st.buf[j]]
                0 <= j < len && st.buf[j] is Some && {
                    let r = st.buf[j]->0;
                    &&& forall|i: int|
                        0 <= i < len && (#[trigger] st.buf[i]) is Some ==> st.buf[i]->0.time_arrived
                            < r.time_arrived || (r.time_arrived == st.buf[i]->0.time_arrived
                            && st.buf[i]->0.src_num <= r.src_num)
                    &&& st2.buf.len() == len
                    &&& forall|k: int|
                        0 <= k < len ==> #[trigger] st2.buf[k] == if st.buf[k] == st.buf[j] {
                            None
                        } else {
                            st.buf[k]
                        }
                    &&& st2.buf_pointer == st.buf_pointer
                }
        }),
{
    let st = m.state;
    let len = st.buf.len();
    lemma_active(m);
    lemma_latest_request(st.buf);
    let l = latest_request(st.buf);
    let j = choose|i: int| 0 <= i < len && st.buf[i] == Some(l->0);
    assert(st.buf[j] is Some);
    assert forall|i: int| 0 <= i < len && (#[trigger] st.buf[i]) is Some implies st.buf[i]->0.time_arrived
        < l->0.time_arrived || (l->0.time_arrived == st.buf[i]->0.time_arrived
        && st.buf[i]->0.src_num <= l->0.src_num) by {
        assert(!arrived_before(l->0, st.buf[i]->0));
    }
    assert(st.buf_pointer % m.max_buf_length == st.buf_pointer) by (nonlinear_arith)
        requires
            st.buf_pointer < m.max_buf_length,
    ;
}

/// Every event but serving from the buffer brings a request from the source
/// due first (the first one with the earliest next arrival): its next arrival
/// moves `arrival_cd` later and its count grows by one; every other source is
/// unchanged.
pub proof fn lemma_arrival_advances_first_due_source(
    m: SimulationModel,
    arrival_cd: u64,
    service_time: u64,
)
    requires
        well_formed(m),
        step_fits(m, arrival_cd, service_time),
        m.current_event != SimulationEvent::StopSimulation,
        m.current_event != SimulationEvent::ProcessRequestFromBuffer,
    ensures
        ({
            let st = m.state;
            let st2 = step_spec(m, arrival_cd, service_time).state;
            let len = st.sources.len();
            let p = st.s_next_arrival as int;
            &&& 0 <= p < len
            &&& forall|k: int| 0 <= k < len ==> st.sources[p] <= #[trigger] st.sources[k]
            &&& forall|k: int| 0 <= k < p ==> st.sources[p] < #[trigger] st.sources[k]
            &&& st2.sources.len() == len
            &&& st2.sources[p] == st.sources[p] + arrival_cd
            &&& st2.s_requests_count[p] == st.s_requests_count[p] + 1
            &&& forall|k: int| 0 <= k < len && k != p ==> #[trigger] st2.sources[k] == st.sources[k]
            &&& forall|k: int|
                0 <= k < len && k != p ==> #[trigger] st2.s_requests_count[k]
                    == st.s_requests_count[k]
        }),
{
    let st = m.state;
    lemma_active(m);
    lemma_first_min_index(st.sources);
    lemma_seq_min(st.sources);
    lemma_first_at_most(st.sources, seq_min(st.sources), 0);
}

} // verus!
