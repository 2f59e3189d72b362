//! The decisions the shell takes while it runs a tree: whether a part runs in a
//! process of its own, and how the statuses of the parts combine.
use crate::ysh::Ysh;
use vstd::prelude::*;

verus! {

/// Whether the code runs in the shell itself or in a forked child.
pub enum Proc {
    Child,
    Parent,
}

/// How a command ended.
#[derive(Debug, PartialEq, Eq, Structural)]
pub enum Status {
    Success,
    Fail,
}

impl Status {
    /// Success exactly when both statuses are successes.
    pub fn and(&self, s2: Status) -> (r: Status)
        ensures
            r == (if *self == Status::Success && s2 == Status::Success {
                Status::Success
            } else {
                Status::Fail
            }),
    {
        match (self, s2) {
            (Status::Success, Status::Success) => Status::Success,
            _ => Status::Fail,
        }
    }

    /// The exit code a group reports for this status: 0 for success, 1 otherwise.
    pub fn exit_code(&self) -> (r: i32)
        ensures
            r == (if *self == Status::Success {
                0i32
            } else {
                1i32
            }),
    {
        match self {
            Status::Success => 0,
            Status::Fail => 1,
        }
    }
}

/// Whether running `y` as the process `p` forks first: commands, redirections and
/// groups do when the shell itself runs them; operators never do.
pub fn forks(y: &Ysh, p: Proc) -> (r: bool)
    ensures
        r == (p is Parent && (y@ is Command || y@ is In || y@ is Out || y@ is Sub)),
{
    let is_parent = match p {
        Proc::Child => false,
        Proc::Parent => true,
    };
    match y {
        Ysh::Command(_) | Ysh::In(_, _) | Ysh::Out(_, _) | Ysh::Sub(_) => is_parent,
        Ysh::Pipe(_, _) | Ysh::Sequence(_, _) | Ysh::And(_, _) | Ysh::Or(_, _) => false,
    }
}

/// The operators whose right side runs after their left side has ended.
pub enum Chain {
    Sequence,
    And,
    Or,
}

/// What to do once the left side has ended.
pub enum Step {
    /// Run the right side.
    RunRight,
    /// Do not run it: the whole has ended with this status.
    Done(Status),
}

impl Chain {
    /// `A ; B` always runs `B`; `A && B` runs `B` only after a success of `A`,
    /// and otherwise fails; `A || B` runs `B` only after a failure of `A`, and
    /// otherwise succeeds.
    pub fn after_left(&self, left: &Status) -> (r: Step)
        ensures
            r == (match *self {
                Chain::Sequence => Step::RunRight,
                Chain::And => if *left == Status::Success {
                    Step::RunRight
                } else {
                    Step::Done(Status::Fail)
                },
                Chain::Or => if *left == Status::Fail {
                    Step::RunRight
                } else {
                    Step::Done(Status::Success)
                },
            }),
    {
        match self {
            Chain::Sequence => Step::RunRight,
            Chain::And => match left {
                Status::Success => Step::RunRight,
                Status::Fail => Step::Done(Status::Fail),
            },
            Chain::Or => match left {
                Status::Fail => Step::RunRight,
                Status::Success => Step::Done(Status::Success),
            },
        }
    }

    /// The status of the whole once both sides have run: for `A ; B`, success
    /// when both succeed; for `A && B` and `A || B`, the status of `B`.
    pub fn finish(&self, left: &Status, right: Status) -> (r: Status)
        ensures
            r == (match *self {
                Chain::Sequence => if *left == Status::Success && right == Status::Success {
                    Status::Success
                } else {
                    Status::Fail
                },
                _ => right,
            }),
    {
        match self {
            Chain::Sequence => left.and(right),
            _ => right,
        }
    }
}

} // verus!
