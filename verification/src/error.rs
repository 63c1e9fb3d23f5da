use vstd::prelude::*;

verus! {

/// Errors in reading a log.
#[derive(Debug, Clone, Copy, PartialEq, Eq, Structural)]
pub enum EventLogError {
    LogBlockNumberNotFound,
}

/// Errors in recording or unwinding state changes.
#[derive(Debug, Clone, Copy, PartialEq, Eq, Structural)]
pub enum StateChangeError {
    NoStateChangesInCache,
    PopFrontError,
    CapacityError,
    PoisonedLockOnState,
    EventLogError(EventLogError),
}

impl From<EventLogError> for StateChangeError {
    fn from(err: EventLogError) -> (r: StateChangeError) {
        StateChangeError::EventLogError(err)
    }
}

impl vstd::std_specs::convert::FromSpecImpl<EventLogError> for StateChangeError {
    open spec fn obeys_from_spec() -> bool {
        true
    }

    open spec fn from_spec(err: EventLogError) -> StateChangeError {
        StateChangeError::EventLogError(err)
    }
}

impl StateChangeError {
    /// What the error says.
    pub fn message(&self) -> (r: &'static str)
        ensures
            r@ == match self {
                StateChangeError::NoStateChangesInCache => "No state changes in cache"@,
                StateChangeError::PopFrontError => "Error when removing a state change from the front of the deque"@,
                StateChangeError::CapacityError => "State change cache capacity error"@,
                StateChangeError::PoisonedLockOnState => "Poisoned RWLock on AMM state"@,
                StateChangeError::EventLogError(_) => "Event log error"@,
            },
    {
        match self {
            StateChangeError::NoStateChangesInCache => "No state changes in cache",
            StateChangeError::PopFrontError => "Error when removing a state change from the front of the deque",
            StateChangeError::CapacityError => "State change cache capacity error",
            StateChangeError::PoisonedLockOnState => "Poisoned RWLock on AMM state",
            StateChangeError::EventLogError(_) => "Event log error",
        }
    }
}

} // verus!
