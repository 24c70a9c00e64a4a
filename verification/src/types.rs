use vstd::prelude::*;

verus! {

/// Confidence level of the statistical estimate: 90%, 95%, 99% or 99.9%.
#[derive(Copy, Clone, Debug, PartialEq, Eq, Structural)]
pub enum ConfidenceLevel {
    Low,
    Medium,
    High,
    VeryHigh,
}

/// The parameters a user gives for one simulation.
#[derive(Copy, Clone, Debug)]
pub struct UserInput {
    /// number of request sources
    pub n_src: usize,
    /// number of service devices
    pub n_dvc: usize,
    /// capacity of the buffer
    pub n_buf: usize,
    /// average time between two arrivals of one source
    pub avg_src: u64,
    /// average service time of a device
    pub avg_dvc: u64,
}

/// What happens at the current instant of the simulation.
#[derive(Copy, Clone, Debug, PartialEq, Eq, Structural)]
pub enum SimulationEvent {
    /// A request arrives while every buffer slot is taken: the oldest
    /// buffered request is denied and the new one takes its slot.
    PutNewRequestToFullBuffer,
    /// A request arrives while every device is busy: it waits in the buffer.
    PutNewRequestToBuffer,
    /// A request arrives, the buffer is empty and a device is free.
    ProcessNewRequest,
    /// A device becomes free and takes the latest buffered request.
    ProcessRequestFromBuffer,
    /// No request is left.
    StopSimulation,
}

/// A request waiting in the buffer.
#[derive(Copy, Clone, Debug, PartialEq, Eq, Structural, PartialOrd, Ord)]
pub struct Request {
    /// the instant the request arrived
    pub time_arrived: u64,
    /// the source that emitted it
    pub src_num: usize,
}

/// The state of the queueing system between two events.
#[derive(Clone, Debug)]
pub struct State {
    /// time of the next arrival, per source
    pub sources: Vec<u64>,
    /// time at which each device becomes idle
    pub devices: Vec<u64>,
    pub device_pointer: usize,
    pub buf: Vec<Option<Request>>,
    pub buf_pointer: usize,
    pub next_idle_at: u64,
    pub next_any_idle_at: u64,
    pub next_arrival_at: u64,
    pub requests_processed: usize,
    pub requests_left: usize,
    pub requests_denied: usize,
    pub total_time_in_buffer: u64,
    pub total_time_devices_busy: u64,
    pub total_time_spent_in_system: u64,
    /// requests emitted so far, per source
    pub s_requests_count: Vec<usize>,
    /// the source of the next arrival
    pub s_next_arrival: usize,
    pub s_requests_processed: Vec<usize>,
    pub s_requests_denied: Vec<usize>,
    pub s_time_spent_in_system: Vec<u64>,
    pub s_time_spent_in_buffer: Vec<u64>,
    pub s_time_devices_busy: Vec<u64>,
}

/// A simulation: the user's parameters, the state and the current event.
#[derive(Clone, Debug)]
pub struct Simulation {
    pub max_sources: usize,
    pub max_devices: usize,
    pub max_buf_length: usize,
    pub average_arrival_cd: u64,
    pub average_device_cd: u64,
    pub state: State,
    pub current_event: SimulationEvent,
    pub current_time: u64,
}

/// Mathematical model of a `State`: its vectors seen as sequences.
pub struct StateModel {
    pub sources: Seq<u64>,
    pub devices: Seq<u64>,
    pub device_pointer: usize,
    pub buf: Seq<Option<Request>>,
    pub buf_pointer: usize,
    pub next_idle_at: u64,
    pub next_any_idle_at: u64,
    pub next_arrival_at: u64,
    pub requests_processed: usize,
    pub requests_left: usize,
    pub requests_denied: usize,
    pub total_time_in_buffer: u64,
    pub total_time_devices_busy: u64,
    pub total_time_spent_in_system: u64,
    pub s_requests_count: Seq<usize>,
    pub s_next_arrival: usize,
    pub s_requests_processed: Seq<usize>,
    pub s_requests_denied: Seq<usize>,
    pub s_time_spent_in_system: Seq<u64>,
    pub s_time_spent_in_buffer: Seq<u64>,
    pub s_time_devices_busy: Seq<u64>,
}

/// Mathematical model of a `Simulation`.
pub struct SimulationModel {
    pub max_sources: usize,
    pub max_devices: usize,
    pub max_buf_length: usize,
    pub average_arrival_cd: u64,
    pub average_device_cd: u64,
    pub state: StateModel,
    pub current_event: SimulationEvent,
    pub current_time: u64,
}

impl View for State {
    type V = StateModel;

    open spec fn view(&self) -> StateModel {
        StateModel {
            sources: self.sources@,
            devices: self.devices@,
            device_pointer: self.device_pointer,
            buf: self.buf@,
            buf_pointer: self.buf_pointer,
            next_idle_at: self.next_idle_at,
            next_any_idle_at: self.next_any_idle_at,
            next_arrival_at: self.next_arrival_at,
            requests_processed: self.requests_processed,
            requests_left: self.requests_left,
            requests_denied: self.requests_denied,
            total_time_in_buffer: self.total_time_in_buffer,
            total_time_devices_busy: self.total_time_devices_busy,
            total_time_spent_in_system: self.total_time_spent_in_system,
            s_requests_count: self.s_requests_count@,
            s_next_arrival: self.s_next_arrival,
            s_requests_processed: self.s_requests_processed@,
            s_requests_denied: self.s_requests_denied@,
            s_time_spent_in_system: self.s_time_spent_in_system@,
            s_time_spent_in_buffer: self.s_time_spent_in_buffer@,
            s_time_devices_busy: self.s_time_devices_busy@,
        }
    }
}

impl View for Simulation {
    type V = SimulationModel;

    open spec fn view(&self) -> SimulationModel {
        SimulationModel {
            max_sources: self.max_sources,
            max_devices: self.max_devices,
            max_buf_length: self.max_buf_length,
            average_arrival_cd: self.average_arrival_cd,
            average_device_cd: self.average_device_cd,
            state: self.state@,
            current_event: self.current_event,
            current_time: self.current_time,
        }
    }
}

} // verus!
