//! Choice of the serial port and reactions to what a read of the port gives.
use vstd::prelude::*;
use crate::error::WeighFlowError;

verus! {

/// Baud rate the port is opened with.
pub const DEFAULT_BAUD: u32 = 9600;

/// Seconds without data after which a warning is issued.
pub const TIMEOUT_SECS: u64 = 5;

/// Size of one read from the port.
pub const BUF_SIZE: usize = 512;

/// A serial port the system reports.
pub struct PortCandidate {
    pub name: String,
    pub bluetooth: bool,
}

/// Index of the first port that is not a Bluetooth port, if any.
pub open spec fn first_usable(ports: Seq<PortCandidate>, from: int) -> Option<int>
    decreases ports.len() - from,
{
    if from < 0 || from >= ports.len() {
        None
    } else if !ports[from].bluetooth {
        Some(from)
    } else {
        first_usable(ports, from + 1)
    }
}

/// The port to use: the first non-Bluetooth port the system reports
/// (the first of several when there are more); `NoPorts` when there is none.
pub fn choose_port(ports: &Vec<PortCandidate>) -> (r: Result<String, WeighFlowError>)
    ensures
        match first_usable(ports@, 0) {
            Some(i) => r matches Ok(name) && name@ == ports@[i].name@,
            None => r matches Err(WeighFlowError::NoPorts),
        },
{
    let mut i: usize = 0;
    while i < ports.len()
        invariant
            i <= ports@.len(),
            first_usable(ports@, 0) == first_usable(ports@, i as int),
        decreases ports@.len() - i,
    {
        if !ports[i].bluetooth {
            return Ok(ports[i].name.clone());
        }
        i += 1;
    }
    Err(WeighFlowError::NoPorts)
}

/// What one timed read of the port gave.
pub enum ReadOutcome {
    /// `n` bytes arrived (`n > 0`).
    Data(usize),
    /// The device closed the port (a read of 0 bytes).
    Closed,
    /// The read failed.
    Failed(std::io::Error),
    /// Nothing arrived within [`TIMEOUT_SECS`].
    TimedOut,
}

/// What the reader does next.
pub enum ReadAction {
    /// Publish the first `n` bytes read.
    Forward(usize),
    /// Stop reading with this error.
    Stop(WeighFlowError),
    /// Warn that the scale is silent and keep reading.
    WarnSilent,
}

/// Reaction to a read: data is published, a closed port or a failed read
/// stops the reader, a timeout only warns.
pub fn on_read(outcome: ReadOutcome) -> (r: ReadAction)
    ensures
        match outcome {
            ReadOutcome::Data(n) => r matches ReadAction::Forward(m) && m == n,
            ReadOutcome::Closed => r matches ReadAction::Stop(WeighFlowError::Disconnected),
            ReadOutcome::Failed(_) => r matches ReadAction::Stop(WeighFlowError::Io(_)),
            ReadOutcome::TimedOut => r is WarnSilent,
        },
{
    match outcome {
        ReadOutcome::Data(n) => ReadAction::Forward(n),
        ReadOutcome::Closed => ReadAction::Stop(WeighFlowError::Disconnected),
        ReadOutcome::Failed(e) => ReadAction::Stop(WeighFlowError::Io(e)),
        ReadOutcome::TimedOut => ReadAction::WarnSilent,
    }
}

} // verus!
