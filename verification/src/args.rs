//! Decisions on the command line: which operation, which target, which
//! process and which command word.

use crate::operations::{Command, Operation, Target};
use crate::text::{parse_u32, parsed_u32, text_equals};
use vstd::prelude::*;

verus! {

/// Why a command line is refused.
#[derive(Debug, Clone, Copy, PartialEq, Eq)]
pub enum ArgumentError {
    /// None of mute, noop, volume and set-volume was given.
    UnsupportedOperation,
    /// The target is neither `all` nor `active`.
    InvalidTarget,
    /// The process id is not a `u32` written in decimal.
    InvalidPid,
    /// No command word was given.
    MissingArgument,
    /// The command word is not one of `up`, `down`, `mute`, `noop`.
    UnknownArgument,
}

/// The operation that the flags ask for: mute wins over noop, which wins
/// over a change of volume, which wins over setting the volume.
pub open spec fn operation_for(mute: bool, noop: bool, volume: bool, set_volume: bool) -> Result<
    Operation,
    ArgumentError,
> {
    if mute {
        Ok(Operation::ToggleMute)
    } else if noop {
        Ok(Operation::NoOp)
    } else if volume {
        Ok(Operation::ChangeVolume)
    } else if set_volume {
        Ok(Operation::SetVolume)
    } else {
        Err(ArgumentError::UnsupportedOperation)
    }
}

/// Picks the operation from the flags that were given.
pub fn select_operation(mute: bool, noop: bool, volume: bool, set_volume: bool) -> (op: Result<
    Operation,
    ArgumentError,
>)
    ensures
        op == operation_for(mute, noop, volume, set_volume),
        mute ==> op == Ok::<Operation, ArgumentError>(Operation::ToggleMute),
        !mute && noop ==> op == Ok::<Operation, ArgumentError>(Operation::NoOp),
        !mute && !noop && volume ==> op == Ok::<Operation, ArgumentError>(Operation::ChangeVolume),
        !mute && !noop && !volume && set_volume ==> op == Ok::<Operation, ArgumentError>(
            Operation::SetVolume,
        ),
        op is Err <==> !(mute || noop || volume || set_volume),
        op is Err ==> op == Err::<Operation, ArgumentError>(ArgumentError::UnsupportedOperation),
{
    if mute {
        Ok(Operation::ToggleMute)
    } else if noop {
        Ok(Operation::NoOp)
    } else if volume {
        Ok(Operation::ChangeVolume)
    } else if set_volume {
        Ok(Operation::SetVolume)
    } else {
        Err(ArgumentError::UnsupportedOperation)
    }
}

/// The operation asked for by the flags: mute whenever it is given; with a
/// single flag, the operation of that flag; an error exactly when no flag is
/// given, and then it is `UnsupportedOperation`.
pub proof fn lemma_operation_flags(mute: bool, noop: bool, volume: bool, set_volume: bool)
    ensures
        mute ==> operation_for(mute, noop, volume, set_volume) == Ok::<Operation, ArgumentError>(
            Operation::ToggleMute,
        ),
        noop && !mute && !volume && !set_volume ==> operation_for(mute, noop, volume, set_volume)
            == Ok::<Operation, ArgumentError>(Operation::NoOp),
        volume && !mute && !noop && !set_volume ==> operation_for(mute, noop, volume, set_volume)
            == Ok::<Operation, ArgumentError>(Operation::ChangeVolume),
        set_volume && !mute && !noop && !volume ==> operation_for(mute, noop, volume, set_volume)
            == Ok::<Operation, ArgumentError>(Operation::SetVolume),
        operation_for(mute, noop, volume, set_volume) is Err <==> !(mute || noop || volume
            || set_volume),
        operation_for(mute, noop, volume, set_volume) is Err ==> operation_for(
            mute,
            noop,
            volume,
            set_volume,
        ) == Err::<Operation, ArgumentError>(ArgumentError::UnsupportedOperation),
{
}

/// Each of the four command words gives its own command, and any other word
/// is refused as unknown.
pub proof fn lemma_command_words(word: Seq<char>)
    ensures
        word == seq!['u', 'p'] ==> command_for(word) == Ok::<Command, ArgumentError>(
            Command::VolumeUp,
        ),
        word == seq!['d', 'o', 'w', 'n'] ==> command_for(word) == Ok::<Command, ArgumentError>(
            Command::VolumeDown,
        ),
        word == seq!['m', 'u', 't', 'e'] ==> command_for(word) == Ok::<Command, ArgumentError>(
            Command::ToggleMute,
        ),
        word == seq!['n', 'o', 'o', 'p'] ==> command_for(word) == Ok::<Command, ArgumentError>(
            Command::NoOp,
        ),
        command_for(word) is Err <==> !(word == seq!['u', 'p'] || word == seq!['d', 'o', 'w', 'n']
            || word == seq!['m', 'u', 't', 'e'] || word == seq!['n', 'o', 'o', 'p']),
        command_for(word) is Err ==> command_for(word) == Err::<Command, ArgumentError>(
            ArgumentError::UnknownArgument,
        ),
{
}

/// No target name means all sinks; `all` and `active` name their target;
/// any other name is refused.
pub proof fn lemma_target_names(name: Option<Seq<char>>)
    ensures
        name is None ==> target_for(name) == Ok::<Target, ArgumentError>(Target::All),
        name == Some(seq!['a', 'l', 'l']) ==> target_for(name) == Ok::<Target, ArgumentError>(
            Target::All,
        ),
        name == Some(seq!['a', 'c', 't', 'i', 'v', 'e']) ==> target_for(name) == Ok::<
            Target,
            ArgumentError,
        >(Target::Active),
        target_for(name) is Err <==> (name is Some && name != Some(seq!['a', 'l', 'l']) && name
            != Some(seq!['a', 'c', 't', 'i', 'v', 'e'])),
        target_for(name) is Err ==> target_for(name) == Err::<Target, ArgumentError>(
            ArgumentError::InvalidTarget,
        ),
{
}

/// The target that a target name stands for; no name means all sinks.
pub open spec fn target_for(name: Option<Seq<char>>) -> Result<Target, ArgumentError> {
    match name {
        None => Ok(Target::All),
        Some(n) => if n == seq!['a', 'l', 'l'] {
            Ok(Target::All)
        } else if n == seq!['a', 'c', 't', 'i', 'v', 'e'] {
            Ok(Target::Active)
        } else {
            Err(ArgumentError::InvalidTarget)
        },
    }
}

/// The view of an optional text.
pub open spec fn optional_text(value: Option<&str>) -> Option<Seq<char>> {
    match value {
        Some(s) => Some(s@),
        None => None,
    }
}

/// Reads the target: `all` (also when none is given) or `active`.
pub fn parse_target(value: Option<&str>) -> (target: Result<Target, ArgumentError>)
    ensures
        target == target_for(optional_text(value)),
{
    proof {
        reveal_strlit("all");
        reveal_strlit("active");
        assert("all"@ =~= seq!['a', 'l', 'l']);
        assert("active"@ =~= seq!['a', 'c', 't', 'i', 'v', 'e']);
    }
    match value {
        None => Ok(Target::All),
        Some(name) => {
            if text_equals(name, "all") {
                Ok(Target::All)
            } else if text_equals(name, "active") {
                Ok(Target::Active)
            } else {
                Err(ArgumentError::InvalidTarget)
            }
        },
    }
}

/// Reads the optional process id.
pub fn parse_pid(value: Option<&str>) -> (pid: Result<Option<u32>, ArgumentError>)
    ensures
        match value {
            None => pid == Ok::<Option<u32>, ArgumentError>(None),
            Some(text) => match parsed_u32(text@) {
                Some(n) => pid == Ok::<Option<u32>, ArgumentError>(Some(n)),
                None => pid == Err::<Option<u32>, ArgumentError>(ArgumentError::InvalidPid),
            },
        },
{
    match value {
        None => Ok(None),
        Some(text) => match parse_u32(text) {
            Some(n) => Ok(Some(n)),
            None => Err(ArgumentError::InvalidPid),
        },
    }
}

/// The command that a command word stands for.
pub open spec fn command_for(word: Seq<char>) -> Result<Command, ArgumentError> {
    if word == seq!['u', 'p'] {
        Ok(Command::VolumeUp)
    } else if word == seq!['d', 'o', 'w', 'n'] {
        Ok(Command::VolumeDown)
    } else if word == seq!['m', 'u', 't', 'e'] {
        Ok(Command::ToggleMute)
    } else if word == seq!['n', 'o', 'o', 'p'] {
        Ok(Command::NoOp)
    } else {
        Err(ArgumentError::UnknownArgument)
    }
}

/// Reads the command word, the first argument after the program's name.
pub fn select_command(args: &Vec<String>) -> (command: Result<Command, ArgumentError>)
    ensures
        args@.len() < 2 ==> command == Err::<Command, ArgumentError>(
            ArgumentError::MissingArgument,
        ),
        args@.len() >= 2 ==> command == command_for(args@[1]@),
{
    if args.len() < 2 {
        return Err(ArgumentError::MissingArgument);
    }
    let word = args[1].as_str();
    proof {
        reveal_strlit("up");
        reveal_strlit("down");
        reveal_strlit("mute");
        reveal_strlit("noop");
        assert("up"@ =~= seq!['u', 'p']);
        assert("down"@ =~= seq!['d', 'o', 'w', 'n']);
        assert("mute"@ =~= seq!['m', 'u', 't', 'e']);
        assert("noop"@ =~= seq!['n', 'o', 'o', 'p']);
        assert(word@ == args@[1]@);
    }
    if text_equals(word, "up") {
        Ok(Command::VolumeUp)
    } else if text_equals(word, "down") {
        Ok(Command::VolumeDown)
    } else if text_equals(word, "mute") {
        Ok(Command::ToggleMute)
    } else if text_equals(word, "noop") {
        Ok(Command::NoOp)
    } else {
        Err(ArgumentError::UnknownArgument)
    }
}

} // verus!
