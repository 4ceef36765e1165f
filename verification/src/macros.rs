//! The rules of the `main` attribute and the `select!` macro. Token streams are parsed
//! and built outside; what they must look like is decided here.
use vstd::prelude::*;

verus! {

/// Why a function cannot be an entry point.
#[derive(Debug, Clone, Copy, PartialEq, Eq, Structural)]
pub enum EntryFault {
    /// It is not an `async fn`.
    NotAsync,
    /// It takes arguments.
    TakesArguments,
}

impl EntryFault {
    /// What the error says.
    pub open spec fn text(self) -> Seq<char> {
        match self {
            EntryFault::NotAsync => "#[cibos::main] requires an `async fn`"@,
            EntryFault::TakesArguments => "#[cibos::main] entry point takes no arguments"@,
        }
    }

    /// What the error says.
    pub fn message(&self) -> (s: &'static str)
        ensures
            s@ == self.text(),
    {
        match self {
            EntryFault::NotAsync => "#[cibos::main] requires an `async fn`",
            EntryFault::TakesArguments => "#[cibos::main] entry point takes no arguments",
        }
    }
}

/// Whether a function can be an entry point: an `async fn` without arguments.
pub fn check_entry(is_async: bool, argument_count: usize) -> (r: Result<(), EntryFault>)
    ensures
        r == if !is_async {
            Err::<(), EntryFault>(EntryFault::NotAsync)
        } else if argument_count > 0 {
            Err(EntryFault::TakesArguments)
        } else {
            Ok(())
        },
{
    if !is_async {
        return Err(EntryFault::NotAsync);
    }
    if argument_count > 0 {
        return Err(EntryFault::TakesArguments);
    }
    Ok(())
}

/// What comes next in the arms of a `select!`.
#[derive(Debug, Clone, Copy, PartialEq, Eq, Structural)]
pub enum NextArm {
    /// One more arm is to be parsed.
    Parse,
    /// All arms are parsed.
    Done,
    /// There is no arm at all, which is an error.
    Missing,
}

/// What comes next after `parsed` arms, the last of which a comma followed or not, if
/// the input is at its end or not. Arms are separated by commas, and a comma may
/// follow the last; there is at least one arm.
pub fn next_arm(parsed: usize, comma: bool, at_end: bool) -> (next: NextArm)
    ensures
        next == if parsed == 0 {
            if at_end {
                NextArm::Missing
            } else {
                NextArm::Parse
            }
        } else if comma && !at_end {
            NextArm::Parse
        } else {
            NextArm::Done
        },
{
    if parsed == 0 {
        if at_end {
            NextArm::Missing
        } else {
            NextArm::Parse
        }
    } else if comma && !at_end {
        NextArm::Parse
    } else {
        NextArm::Done
    }
}

/// An entry point is an `async fn` without arguments and nothing else. What is wrong with
/// another function is told, and that it is not `async` before all.
pub proof fn entry_points_are_async(is_async: bool, n: usize, r: Result<(), EntryFault>)
    requires
        call_ensures(check_entry, (is_async, n), r),
    ensures
        r is Ok <==> is_async && n == 0,
        r matches Err(f) ==> (f is NotAsync <==> !is_async),
        r matches Err(EntryFault::TakesArguments) ==> n > 0,
{
}

/// Arms are parsed as long as there are any: the first unless there is none at all, another
/// exactly behind a comma that something follows.
pub proof fn arms_are_parsed_to_the_end(parsed: usize, comma: bool, at_end: bool, next: NextArm)
    requires
        call_ensures(next_arm, (parsed, comma, at_end), next),
    ensures
        next is Parse <==> !at_end && (parsed == 0 || comma),
        next is Missing <==> at_end && parsed == 0,
        at_end ==> !(next is Parse),
        parsed > 0 && !comma ==> next is Done,
{
}

} // verus!
