use queueing_system::analytics::base_simulation;
use queueing_system::simulation::{can_step, is_well_formed, simulator};
use queueing_system::types::{Request, Simulation, SimulationEvent, UserInput};

fn small_input() -> UserInput {
    UserInput { n_src: 2, n_dvc: 1, n_buf: 2, avg_src: 10, avg_dvc: 20 }
}

fn step(s: &Simulation, arrival_cd: u64, service_time: u64) -> Simulation {
    assert!(can_step(s, arrival_cd, service_time));
    simulator(s, arrival_cd, service_time)
}

fn conserved(s: &Simulation) -> usize {
    s.state.requests_processed + s.state.requests_denied + s.state.requests_left
}

#[test]
fn base_simulation_starts_empty() {
    let s = base_simulation(4, small_input());
    assert_eq!(s.max_sources, 2);
    assert_eq!(s.max_devices, 1);
    assert_eq!(s.max_buf_length, 2);
    assert_eq!(s.average_arrival_cd, 10);
    assert_eq!(s.average_device_cd, 20);
    assert_eq!(s.state.sources, vec![0, 0]);
    assert_eq!(s.state.devices, vec![0]);
    assert_eq!(s.state.buf, vec![None, None]);
    assert_eq!(s.state.requests_left, 4);
    assert_eq!(s.state.requests_processed, 0);
    assert_eq!(s.state.requests_denied, 0);
    assert_eq!(s.state.s_requests_count, vec![0, 0]);
    assert_eq!(s.state.s_time_spent_in_system, vec![0, 0]);
    assert_eq!(s.current_event, SimulationEvent::ProcessNewRequest);
    assert_eq!(s.current_time, 0);
    assert!(is_well_formed(&s));
}

#[test]
fn base_simulation_without_requests_or_room_cannot_step() {
    assert!(!can_step(&base_simulation(0, small_input()), 1, 1));
    let no_buffer = UserInput { n_src: 2, n_dvc: 1, n_buf: 0, avg_src: 10, avg_dvc: 20 };
    assert!(!can_step(&base_simulation(3, no_buffer), 1, 1));
    let no_device = UserInput { n_src: 2, n_dvc: 0, n_buf: 2, avg_src: 10, avg_dvc: 20 };
    assert!(!can_step(&base_simulation(3, no_device), 1, 1));
    let no_source = UserInput { n_src: 0, n_dvc: 1, n_buf: 2, avg_src: 10, avg_dvc: 20 };
    assert!(!can_step(&base_simulation(3, no_source), 1, 1));
}

#[test]
fn first_request_goes_straight_to_a_device() {
    let s = step(&base_simulation(4, small_input()), 10, 25);
    assert_eq!(s.state.sources, vec![10, 0]);
    assert_eq!(s.state.s_requests_count, vec![1, 0]);
    assert_eq!(s.state.devices, vec![25]);
    assert_eq!(s.state.device_pointer, 0);
    assert_eq!(s.state.buf, vec![None, None]);
    assert_eq!(s.state.requests_processed, 1);
    assert_eq!(s.state.requests_left, 3);
    assert_eq!(s.state.total_time_devices_busy, 25);
    assert_eq!(s.state.total_time_spent_in_system, 25);
    assert_eq!(s.state.s_requests_processed, vec![1, 0]);
    assert_eq!(s.state.s_time_devices_busy, vec![25, 0]);
    assert_eq!(s.state.s_time_spent_in_system, vec![25, 0]);
    assert_eq!(s.state.next_idle_at, 25);
    assert_eq!(s.state.next_any_idle_at, 25);
    assert_eq!(s.state.next_arrival_at, 0);
    assert_eq!(s.state.s_next_arrival, 1);
    assert_eq!(s.current_event, SimulationEvent::PutNewRequestToBuffer);
    assert_eq!(s.current_time, 0);
}

/// Runs the hand-checked scenario: two sources, one device, two buffer slots,
/// four requests.
fn scenario() -> Vec<Simulation> {
    let mut sims = vec![base_simulation(4, small_input())];
    let draws: [(u64, u64); 7] = [(10, 25), (7, 99), (5, 99), (30, 99), (100, 99), (1, 8), (1, 1)];
    for (arrival_cd, service_time) in draws.iter() {
        let next = step(sims.last().unwrap(), *arrival_cd, *service_time);
        sims.push(next);
    }
    sims
}

#[test]
fn busy_device_sends_arrivals_to_the_buffer() {
    let sims = scenario();
    let s = &sims[2];
    assert_eq!(s.state.sources, vec![10, 7]);
    assert_eq!(s.state.s_requests_count, vec![1, 1]);
    assert_eq!(s.state.buf, vec![Some(Request { time_arrived: 0, src_num: 1 }), None]);
    assert_eq!(s.state.buf_pointer, 1);
    assert_eq!(s.state.requests_left, 3);
    assert_eq!(s.current_event, SimulationEvent::PutNewRequestToBuffer);
    assert_eq!(s.current_time, 7);
    let s = &sims[3];
    assert_eq!(s.state.sources, vec![10, 12]);
    assert_eq!(
        s.state.buf,
        vec![Some(Request { time_arrived: 0, src_num: 1 }), Some(Request { time_arrived: 7, src_num: 1 })]
    );
    assert_eq!(s.state.buf_pointer, 0);
    assert_eq!(s.state.s_next_arrival, 0);
    assert_eq!(s.current_event, SimulationEvent::PutNewRequestToFullBuffer);
    assert_eq!(s.current_time, 10);
}

#[test]
fn full_buffer_denies_the_oldest_request() {
    let sims = scenario();
    let s = &sims[4];
    assert_eq!(s.state.sources, vec![40, 12]);
    assert_eq!(
        s.state.buf,
        vec![Some(Request { time_arrived: 10, src_num: 0 }), Some(Request { time_arrived: 7, src_num: 1 })]
    );
    assert_eq!(s.state.buf_pointer, 1);
    assert_eq!(s.state.requests_processed, 1);
    assert_eq!(s.state.requests_left, 2);
    assert_eq!(s.state.requests_denied, 1);
    assert_eq!(s.state.total_time_in_buffer, 10);
    assert_eq!(s.state.total_time_spent_in_system, 35);
    assert_eq!(s.state.s_requests_denied, vec![1, 0]);
    assert_eq!(s.state.s_time_spent_in_buffer, vec![0, 10]);
    assert_eq!(s.state.s_time_spent_in_system, vec![25, 10]);
    assert_eq!(s.current_event, SimulationEvent::PutNewRequestToFullBuffer);
    assert_eq!(s.current_time, 12);
    let s = &sims[5];
    assert_eq!(
        s.state.buf,
        vec![Some(Request { time_arrived: 10, src_num: 0 }), Some(Request { time_arrived: 12, src_num: 1 })]
    );
    assert_eq!(s.state.buf_pointer, 0);
    assert_eq!(s.state.requests_denied, 2);
    assert_eq!(s.state.requests_left, 1);
    assert_eq!(s.state.total_time_in_buffer, 15);
    assert_eq!(s.state.s_requests_denied, vec![1, 1]);
    assert_eq!(s.state.s_time_spent_in_buffer, vec![0, 15]);
    assert_eq!(s.current_event, SimulationEvent::ProcessRequestFromBuffer);
    assert_eq!(s.current_time, 25);
}

#[test]
fn free_device_serves_the_latest_buffered_request() {
    let sims = scenario();
    let s = &sims[6];
    assert_eq!(s.state.sources, vec![40, 112]);
    assert_eq!(s.state.s_requests_count, vec![2, 3]);
    assert_eq!(s.state.devices, vec![33]);
    assert_eq!(s.state.buf, vec![Some(Request { time_arrived: 10, src_num: 0 }), None]);
    assert_eq!(s.state.requests_processed, 2);
    assert_eq!(s.state.requests_left, 0);
    assert_eq!(s.state.total_time_in_buffer, 28);
    assert_eq!(s.state.total_time_devices_busy, 33);
    assert_eq!(s.state.total_time_spent_in_system, 61);
    assert_eq!(s.state.s_requests_processed, vec![2, 0]);
    assert_eq!(s.state.s_time_spent_in_buffer, vec![0, 30]);
    assert_eq!(s.state.s_time_devices_busy, vec![25, 8]);
    assert_eq!(s.state.s_time_spent_in_system, vec![25, 38]);
    assert_eq!(s.current_event, SimulationEvent::StopSimulation);
    assert_eq!(s.current_time, 33);
}

#[test]
fn stopped_simulation_stays_unchanged() {
    let sims = scenario();
    let stopped = &sims[6];
    let again = &sims[7];
    assert_eq!(again.current_event, SimulationEvent::StopSimulation);
    assert_eq!(again.current_time, stopped.current_time);
    assert_eq!(again.state.buf, stopped.state.buf);
    assert_eq!(again.state.devices, stopped.state.devices);
    assert_eq!(again.state.sources, stopped.state.sources);
    assert_eq!(again.state.requests_processed, stopped.state.requests_processed);
    assert_eq!(again.state.s_time_spent_in_system, stopped.state.s_time_spent_in_system);
}

#[test]
fn requests_are_conserved_and_time_moves_forward() {
    let sims = scenario();
    for w in sims.windows(2) {
        assert_eq!(conserved(&w[0]), 4);
        assert_eq!(conserved(&w[1]), 4);
        assert!(w[1].current_time >= w[0].current_time);
        assert!(w[1].state.requests_processed >= w[0].state.requests_processed);
        assert!(w[1].state.requests_denied >= w[0].state.requests_denied);
        assert!(w[1].state.requests_left <= w[0].state.requests_left);
        assert!(is_well_formed(&w[1]));
    }
}

#[test]
fn per_source_statistics_add_up() {
    for s in scenario().iter() {
        let st = &s.state;
        assert_eq!(st.s_requests_processed.iter().sum::<usize>(), st.requests_processed);
        assert_eq!(st.s_requests_denied.iter().sum::<usize>(), st.requests_denied);
        assert_eq!(st.s_time_devices_busy.iter().sum::<u64>(), st.total_time_devices_busy);
        assert_eq!(st.total_time_spent_in_system, st.total_time_in_buffer + st.total_time_devices_busy);
        for i in 0..st.s_time_spent_in_system.len() {
            assert_eq!(
                st.s_time_spent_in_system[i],
                st.s_time_spent_in_buffer[i] + st.s_time_devices_busy[i]
            );
        }
    }
}

#[test]
fn arithmetic_overflow_is_refused() {
    let s0 = base_simulation(4, small_input());
    let s1 = step(&s0, u64::MAX, 25);
    assert_eq!(s1.state.sources, vec![u64::MAX, 0]);
    let s2 = step(&s1, 1, 1);
    assert_eq!(s2.current_time, 1);
    assert_eq!(s2.current_event, SimulationEvent::PutNewRequestToBuffer);
    assert!(!can_step(&s2, u64::MAX, 1));
    assert!(can_step(&s2, u64::MAX - 1, 1));
}

#[test]
fn tampered_simulation_is_not_well_formed() {
    let mut s = base_simulation(4, small_input());
    s.state.device_pointer = 1;
    assert!(!is_well_formed(&s));
    let mut s = base_simulation(4, small_input());
    s.current_event = SimulationEvent::ProcessRequestFromBuffer;
    assert!(!is_well_formed(&s));
    let mut s = base_simulation(4, small_input());
    s.state.next_arrival_at = 3;
    assert!(!is_well_formed(&s));
}

fn remaining_work(s: &Simulation) -> usize {
    let vacant = s.state.buf.iter().filter(|x| x.is_none()).count();
    s.state.requests_left * (s.state.buf.len() + 1) + vacant
}

#[test]
fn remaining_work_falls_until_the_simulation_stops() {
    let sims = scenario();
    assert_eq!(remaining_work(&sims[0]), 4 * 3 + 2);
    for w in sims.windows(2) {
        if w[0].current_event != SimulationEvent::StopSimulation {
            assert!(remaining_work(&w[1]) < remaining_work(&w[0]));
        }
    }
    let last = sims.last().unwrap();
    assert_eq!(last.state.requests_left, 0);
    assert_eq!(last.current_event, SimulationEvent::StopSimulation);
}

#[test]
fn long_run_with_several_devices_stops() {
    let inp = UserInput { n_src: 3, n_dvc: 2, n_buf: 3, avg_src: 320, avg_dvc: 560 };
    let mut s = base_simulation(200, inp);
    let mut steps = 0usize;
    let bound = remaining_work(&s);
    let mut k: u64 = 0;
    while s.current_event != SimulationEvent::StopSimulation {
        k += 1;
        let arrival_cd = 300 + (k * 7) % 40;
        let service_time = 400 + (k * 13) % 400;
        let next = step(&s, arrival_cd, service_time);
        assert!(next.current_time >= s.current_time);
        assert_eq!(conserved(&next), 200);
        s = next;
        steps += 1;
        assert!(steps <= bound);
    }
    assert_eq!(s.state.requests_left, 0);
    assert_eq!(s.state.requests_processed + s.state.requests_denied, 200);
    assert_eq!(s.state.s_requests_processed.iter().sum::<usize>(), s.state.requests_processed);
}
