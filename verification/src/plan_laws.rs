//! What holds of the plan of every command: which steps it has, in which order,
//! and how it goes on when the player answers.

use vstd::prelude::*;

use crate::plan::{
    after_read, awaited, greeted, initial_baud, mister_conflict, negotiated, negotiation, opening,
    own_steps, planned, resets, sendable, terminal_speed, wanted, AfterGreeting, Command, Step,
    TerminalStep, UsageError,
};
use crate::transport::IoErrorKind;

verus! {

/// What is in two lists put together, and in lists of at most one step.
proof fn lemma_contents()
    ensures
        forall|first: Seq<Step>, second: Seq<Step>, step: Step| #[trigger]
            (first + second).contains(step) <==> first.contains(step) || second.contains(step),
        forall|only: Step, step: Step| #[trigger] seq![only].contains(step) <==> step == only,
        forall|condition: bool, only: Step, step: Step| #[trigger]
            wanted(condition, only).contains(step) <==> condition && step == only,
        forall|step: Step| !(#[trigger] Seq::<Step>::empty().contains(step)),
{
    assert forall|first: Seq<Step>, second: Seq<Step>, step: Step| #[trigger]
        (first + second).contains(step) <==> first.contains(step) || second.contains(step) by {
        let whole = first + second;
        if first.contains(step) {
            let i = first.index_of(step);
            assert(whole[i] == step);
        }
        if second.contains(step) {
            let i = second.index_of(step);
            assert(whole[first.len() + i] == step);
        }
        if whole.contains(step) {
            let i = whole.index_of(step);
            if i < first.len() {
                assert(first[i] == step);
            } else {
                assert(second[i - first.len()] == step);
            }
        }
    }
    assert forall|only: Step, step: Step| #[trigger]
        seq![only].contains(step) <==> step == only by {
        assert(seq![only][0] == only);
    }
    assert forall|condition: bool, only: Step, step: Step| #[trigger]
        wanted(condition, only).contains(step) <==> condition && step == only by {
        assert(seq![only][0] == only);
    }
}

/// The steps of starting a full Stub, each by itself.
proof fn lemma_stub_steps(step: Step)
    ensures
        own_steps(Command::Stub).contains(step) <==> {
            ||| step == Step::ReadImage
            ||| step == (Step::AwaitStub { limit: 4096 })
            ||| step == (Step::Settle { milliseconds: 500 })
            ||| step == (Step::Download { address: 0x8000, chunk_size: 256 })
            ||| step == Step::End
            ||| step == Step::Done
        },
{
    let steps = own_steps(Command::Stub);
    assert(steps.len() == 6);
    assert(steps[0] == Step::ReadImage);
    assert(steps[1] == (Step::AwaitStub { limit: 4096 }));
    assert(steps[2] == (Step::Settle { milliseconds: 500 }));
    assert(steps[3] == (Step::Download { address: 0x8000, chunk_size: 256 }));
    assert(steps[4] == Step::End);
    assert(steps[5] == Step::Done);
}

/// A plan has the steps that the user asked for, with the values that the user
/// gave, and no others:
///
/// - The port is opened once, at the speed of the user or at that of a MiSTer,
///   unless the command asks a MiSTer for another speed: that is refused at once.
/// - The player is reset if that is asked for, and to start a full Stub.
/// - A transfer is refused if its chunks cannot be sent or it is empty.
/// - The player is awaited if that is asked for or it was reset, and before a
///   download it is then left alone for half a second.
/// - An image is read for every download and copy to the player, and a file is
///   saved for every upload and copy from the player.
/// - What was downloaded is started, awaited and ended if that is asked for, and
///   it is started where it was downloaded to.
pub proof fn law_plans_hold_what_was_asked_for(
    mister: bool,
    baud: u32,
    command: Command,
    step: Step,
)
    ensures
        ({
            let speed = if mister {
                115_200u32
            } else {
                baud
            };
            let conflict = mister && (match command {
                Command::Download { terminal_baud, .. } => terminal_baud is Some,
                Command::Upload { upload_baud, .. } => upload_baud is Some,
                _ => false,
            });
            let unsendable = match command {
                Command::Download { chunk_size, .. } => chunk_size < 1 || chunk_size > 0xffff,
                Command::Upload { size, chunk_size, .. } => {
                    size == 0 || chunk_size < 1 || chunk_size > 0xffff
                },
                _ => false,
            };
            let goes_on = !conflict && !unsendable;
            planned(mister, baud, command).contains(step) <==> match step {
                Step::AnnounceMister => mister && !conflict,
                Step::Open { baud: at } => !conflict && at == speed,
                Step::Reset { baud: at } => !conflict && at == speed && (match command {
                    Command::Download { reset, .. } => reset,
                    Command::Stub => true,
                    _ => false,
                }),
                Step::Refuse(error) => match command {
                    Command::Download { .. } => {
                        ||| conflict && error == UsageError::TerminalBaudWithMister
                        ||| !conflict && unsendable && error == UsageError::InvalidChunkSize
                    },
                    Command::Upload { size, .. } => {
                        ||| conflict && error == UsageError::UploadBaudWithMister
                        ||| !conflict && size == 0 && error == UsageError::EmptyUpload
                        ||| !conflict && size > 0 && unsendable && error
                            == UsageError::InvalidChunkSize
                    },
                    _ => false,
                },
                Step::Greet { limit } => command == (Command::Wait { max_banner_bytes: limit }),
                Step::ReadImage => goes_on && (match command {
                    Command::Download { .. } | Command::Stub | Command::Put { .. } => true,
                    _ => false,
                }),
                Step::AwaitStub { limit } => goes_on && limit == 4096 && (match command {
                    Command::Download { wait, reset, .. } => wait || reset,
                    Command::Upload { wait, .. } => wait,
                    Command::Stub => true,
                    Command::List { wait, .. } => wait,
                    Command::Get { wait, .. } => wait,
                    Command::Put { wait, .. } => wait,
                    Command::Delete { wait } => wait,
                    Command::Mount { wait } => wait,
                    Command::Wait { .. } => false,
                }),
                Step::Settle { milliseconds } => goes_on && milliseconds == 500 && (
                match command {
                    Command::Download { wait, reset, .. } => wait || reset,
                    Command::Stub => true,
                    _ => false,
                }),
                Step::Download { address: to, chunk_size: by } => goes_on && (match command {
                    Command::Download { address, chunk_size, .. } => {
                        to == address && by == chunk_size
                    },
                    Command::Stub => to == 0x8000 && by == 256,
                    _ => false,
                }),
                Step::Execute { address: at } => goes_on && (match command {
                    Command::Download { address, execute, .. } => execute && at == address,
                    _ => false,
                }),
                Step::AwaitReturn => goes_on && (match command {
                    Command::Download { execute, wait_for_return, .. } => {
                        execute && wait_for_return
                    },
                    _ => false,
                }),
                Step::Negotiate { baud: desired } => goes_on && (match command {
                    Command::Upload { upload_baud, .. } => upload_baud == Some(desired),
                    _ => false,
                }),
                Step::Upload { address: from, size: count, chunk_size: by } => goes_on && (
                match command {
                    Command::Upload { address, size, chunk_size, .. } => {
                        from == address && count == size && by == chunk_size
                    },
                    _ => false,
                }),
                Step::Save => goes_on && (command is Upload || command is Get),
                Step::List { read_size: by } => match command {
                    Command::List { read_size, .. } => by == read_size,
                    _ => false,
                },
                Step::Get { chunk_size: by } => match command {
                    Command::Get { chunk_size, .. } => by == chunk_size,
                    _ => false,
                },
                Step::Put { chunk_size: by } => match command {
                    Command::Put { chunk_size, .. } => by == chunk_size,
                    _ => false,
                },
                Step::Delete => command is Delete,
                Step::Mount => command is Mount,
                Step::End => goes_on && (match command {
                    Command::Download { end, .. } => end,
                    Command::Upload { end, .. } => end,
                    Command::Stub => true,
                    _ => false,
                }),
                Step::Done => goes_on && !(command is Wait || command is Mount),
                Step::TerminalSpeed { baud: at } => goes_on && (match command {
                    Command::Download { terminal, terminal_baud, .. } => {
                        terminal && terminal_baud == Some(at)
                    },
                    _ => false,
                }),
                Step::Terminal => goes_on && (match command {
                    Command::Download { terminal, .. } => terminal,
                    _ => false,
                }),
            }
        }),
{
    lemma_contents();
    lemma_stub_steps(step);
    let first = opening(mister, baud, resets(command));
    let own = own_steps(command);
    assert((first + own).contains(step) <==> first.contains(step) || own.contains(step));
    match command {
        Command::Download { terminal, terminal_baud, .. } => {
            assert(terminal_speed(terminal, terminal_baud).contains(step) <==> (terminal
                && terminal_baud is Some && step == (Step::TerminalSpeed {
                baud: terminal_baud->Some_0,
            })));
        },
        Command::Upload { upload_baud, .. } => {
            assert(negotiation(upload_baud).contains(step) <==> (upload_baud is Some && step == (
            Step::Negotiate { baud: upload_baud->Some_0 })));
        },
        _ => {},
    }
}

/// The place of a step among the steps of a command.
pub open spec fn stage(command: Command, step: Step) -> int {
    match step {
        Step::AnnounceMister => 0,
        Step::Reset { .. } => 1,
        Step::Open { .. } => 2,
        Step::Refuse(_) => 3,
        Step::ReadImage => if command is Put {
            8
        } else {
            4
        },
        Step::Greet { .. } => 5,
        Step::AwaitStub { .. } => 6,
        Step::Settle { .. } => 7,
        Step::Negotiate { .. } => 9,
        Step::Download { .. } | Step::Upload { .. } | Step::List { .. } | Step::Get { .. }
        | Step::Put { .. } | Step::Delete | Step::Mount => 10,
        Step::Execute { .. } => 11,
        Step::AwaitReturn => 12,
        Step::Save => 13,
        Step::End => 14,
        Step::Done => 15,
        Step::TerminalSpeed { .. } => 16,
        Step::Terminal => 17,
    }
}

/// The steps are in order, and their places are from one number up to another.
#[verifier::opaque]
spec fn ascends(command: Command, steps: Seq<Step>, from: int, to: int) -> bool {
    &&& forall|i: int, j: int|
        #![trigger steps[i], steps[j]]
        0 <= i < j < steps.len() ==> stage(command, steps[i]) < stage(command, steps[j])
    &&& forall|i: int|
        0 <= i < steps.len() ==> from <= stage(command, #[trigger] steps[i]) < to
}

/// Steps in order, with steps of later places behind them.
proof fn lemma_ascends_more(
    command: Command,
    first: Seq<Step>,
    from: int,
    middle: int,
    second: Seq<Step>,
    to: int,
)
    requires
        ascends(command, first, from, middle),
        ascends(command, second, middle, to),
        from <= middle <= to,
    ensures
        ascends(command, first + second, from, to),
{
    reveal(ascends);
    let steps = first + second;
    assert forall|i: int, j: int|
        #![trigger steps[i], steps[j]]
        0 <= i < j < steps.len() implies stage(command, steps[i]) < stage(command, steps[j]) by {
        if j < first.len() {
            assert(steps[i] == first[i] && steps[j] == first[j]);
        } else if i >= first.len() {
            assert(steps[i] == second[i - first.len()] && steps[j] == second[j - first.len()]);
        } else {
            assert(steps[i] == first[i] && steps[j] == second[j - first.len()]);
        }
    }
    assert forall|i: int| 0 <= i < steps.len() implies from <= stage(command, #[trigger] steps[i])
        < to by {
        if i < first.len() {
            assert(steps[i] == first[i]);
        } else {
            assert(steps[i] == second[i - first.len()]);
        }
    }
}

/// A list with at most one step, of a place that fits.
proof fn lemma_ascends_one(command: Command, steps: Seq<Step>, from: int, to: int)
    requires
        steps.len() <= 1,
        steps.len() == 1 ==> from <= stage(command, steps[0]) < to,
    ensures
        ascends(command, steps, from, to),
{
    reveal(ascends);
}

/// The steps of a plan are in order, and none of them occurs twice: the player is
/// reset before the port is opened for good; it is awaited, and left alone,
/// before anything is asked of it; a speed is agreed on before the transfer that
/// it is for; what was downloaded is started after the transfer; a file is saved
/// after the transfer that fills it and before the Stub is ended; the terminal
/// comes last. An image is read before the player is awaited, but for a copy of
/// a file to the player.
pub proof fn law_plans_are_in_order(mister: bool, baud: u32, command: Command, i: int, j: int)
    requires
        0 <= i < j < planned(mister, baud, command).len(),
    ensures
        stage(command, planned(mister, baud, command)[i]) < stage(
            command,
            planned(mister, baud, command)[j],
        ),
{
    let whole = planned(mister, baud, command);
    if !(mister && mister_conflict(command) is Some) {
        lemma_opening(mister, baud, command);
        lemma_own(command);
        lemma_ascends_more(
            command,
            opening(mister, baud, resets(command)),
            0,
            3,
            own_steps(command),
            18,
        );
        reveal(ascends);
    }
}

/// The steps before a command gets to its own are in order.
proof fn lemma_opening(mister: bool, baud: u32, command: Command)
    ensures
        ascends(command, opening(mister, baud, resets(command)), 0, 3),
{
    let speed = initial_baud(mister, baud);
    let one = wanted(mister, Step::AnnounceMister);
    let two = wanted(resets(command), Step::Reset { baud: speed });
    let three = seq![Step::Open { baud: speed }];
    lemma_ascends_one(command, one, 0, 1);
    lemma_ascends_one(command, two, 1, 2);
    lemma_ascends_one(command, three, 2, 3);
    lemma_ascends_more(command, one, 0, 1, two, 2);
    lemma_ascends_more(command, one + two, 0, 2, three, 3);
}

/// The steps of a command of its own are in order.
proof fn lemma_own(command: Command)
    ensures
        ascends(command, own_steps(command), 3, 18),
{
    match command {
        Command::Download {
            address,
            chunk_size,
            wait,
            reset,
            execute,
            wait_for_return,
            end,
            terminal,
            terminal_baud,
        } => {
            if !sendable(chunk_size) {
                lemma_ascends_one(command, own_steps(command), 3, 18);
            } else {
                let a = seq![Step::ReadImage];
                let b = wanted(wait || reset, Step::AwaitStub { limit: 4096 });
                let c = wanted(wait || reset, Step::Settle { milliseconds: 500 });
                let d = seq![Step::Download { address, chunk_size }];
                let e = wanted(execute, Step::Execute { address });
                let f = wanted(execute && wait_for_return, Step::AwaitReturn);
                let g = wanted(end, Step::End);
                let h = seq![Step::Done];
                let k = terminal_speed(terminal, terminal_baud);
                let l = wanted(terminal, Step::Terminal);
                lemma_ascends_one(command, a, 3, 5);
                lemma_ascends_one(command, b, 5, 7);
                lemma_ascends_one(command, c, 7, 8);
                lemma_ascends_one(command, d, 8, 11);
                lemma_ascends_one(command, e, 11, 12);
                lemma_ascends_one(command, f, 12, 13);
                lemma_ascends_one(command, g, 13, 15);
                lemma_ascends_one(command, h, 15, 16);
                lemma_ascends_one(command, k, 16, 17);
                lemma_ascends_one(command, l, 17, 18);
                lemma_ascends_more(command, a, 3, 5, b, 7);
                lemma_ascends_more(command, a + b, 3, 7, c, 8);
                lemma_ascends_more(command, a + b + c, 3, 8, d, 11);
                lemma_ascends_more(command, a + b + c + d, 3, 11, e, 12);
                lemma_ascends_more(command, a + b + c + d + e, 3, 12, f, 13);
                lemma_ascends_more(command, a + b + c + d + e + f, 3, 13, g, 15);
                lemma_ascends_more(command, a + b + c + d + e + f + g, 3, 15, h, 16);
                lemma_ascends_more(command, a + b + c + d + e + f + g + h, 3, 16, k, 17);
                lemma_ascends_more(command, a + b + c + d + e + f + g + h + k, 3, 17, l, 18);
            }
        },
        Command::Upload { address, size, chunk_size, upload_baud, wait, end } => {
            if size == 0 || !sendable(chunk_size) {
                lemma_ascends_one(command, own_steps(command), 3, 18);
            } else {
                let a = awaited(wait);
                let b = negotiation(upload_baud);
                let c = seq![Step::Upload { address, size, chunk_size }];
                let d = seq![Step::Save];
                let e = wanted(end, Step::End);
                let f = seq![Step::Done];
                lemma_ascends_one(command, a, 3, 7);
                lemma_ascends_one(command, b, 7, 10);
                lemma_ascends_one(command, c, 10, 11);
                lemma_ascends_one(command, d, 11, 14);
                lemma_ascends_one(command, e, 14, 15);
                lemma_ascends_one(command, f, 15, 18);
                lemma_ascends_more(command, a, 3, 7, b, 10);
                lemma_ascends_more(command, a + b, 3, 10, c, 11);
                lemma_ascends_more(command, a + b + c, 3, 11, d, 14);
                lemma_ascends_more(command, a + b + c + d, 3, 14, e, 15);
                lemma_ascends_more(command, a + b + c + d + e, 3, 15, f, 18);
            }
        },
        Command::Stub => {
            reveal(ascends);
            let steps = own_steps(command);
            assert(steps.len() == 6);
        },
        Command::Wait { .. } => {
            lemma_ascends_one(command, own_steps(command), 3, 18);
        },
        Command::List { read_size, wait } => {
            let b = seq![Step::List { read_size }];
            let c = seq![Step::Done];
            lemma_ascends_one(command, awaited(wait), 3, 7);
            lemma_ascends_one(command, b, 7, 11);
            lemma_ascends_one(command, c, 11, 18);
            lemma_ascends_more(command, awaited(wait), 3, 7, b, 11);
            lemma_ascends_more(command, awaited(wait) + b, 3, 11, c, 18);
        },
        Command::Get { chunk_size, wait } => {
            let b = seq![Step::Get { chunk_size }];
            let c = seq![Step::Save];
            let d = seq![Step::Done];
            lemma_ascends_one(command, awaited(wait), 3, 7);
            lemma_ascends_one(command, b, 7, 11);
            lemma_ascends_one(command, c, 11, 14);
            lemma_ascends_one(command, d, 14, 18);
            lemma_ascends_more(command, awaited(wait), 3, 7, b, 11);
            lemma_ascends_more(command, awaited(wait) + b, 3, 11, c, 14);
            lemma_ascends_more(command, awaited(wait) + b + c, 3, 14, d, 18);
        },
        Command::Put { chunk_size, wait } => {
            let b = seq![Step::ReadImage];
            let c = seq![Step::Put { chunk_size }];
            let d = seq![Step::Done];
            lemma_ascends_one(command, awaited(wait), 3, 7);
            lemma_ascends_one(command, b, 7, 9);
            lemma_ascends_one(command, c, 9, 11);
            lemma_ascends_one(command, d, 11, 18);
            lemma_ascends_more(command, awaited(wait), 3, 7, b, 9);
            lemma_ascends_more(command, awaited(wait) + b, 3, 9, c, 11);
            lemma_ascends_more(command, awaited(wait) + b + c, 3, 11, d, 18);
        },
        Command::Delete { wait } => {
            let b = seq![Step::Delete];
            let c = seq![Step::Done];
            lemma_ascends_one(command, awaited(wait), 3, 7);
            lemma_ascends_one(command, b, 7, 11);
            lemma_ascends_one(command, c, 11, 18);
            lemma_ascends_more(command, awaited(wait), 3, 7, b, 11);
            lemma_ascends_more(command, awaited(wait) + b, 3, 11, c, 18);
        },
        Command::Mount { wait } => {
            let b = seq![Step::Mount];
            lemma_ascends_one(command, awaited(wait), 3, 7);
            lemma_ascends_one(command, b, 7, 18);
            lemma_ascends_more(command, awaited(wait), 3, 7, b, 18);
        },
    }
}

/// A download that is carried out awaits the player, and then leaves it alone for
/// half a second, both before the transfer, if and only if the user asked for a
/// wait or a reset.
pub proof fn law_downloads_await_the_player(
    mister: bool,
    baud: u32,
    command: Command,
    transfer: int,
)
    requires
        command is Download,
        0 <= transfer < planned(mister, baud, command).len(),
        planned(mister, baud, command)[transfer] is Download,
    ensures
        ({
            let steps = planned(mister, baud, command);
            let asked = command->Download_wait || command->Download_reset;
            &&& asked <==> exists|i: int, j: int|
                0 <= i < j < transfer && #[trigger] steps[i] == (Step::AwaitStub { limit: 4096 })
                    && #[trigger] steps[j] == (Step::Settle { milliseconds: 500 })
            &&& !asked ==> forall|i: int|
                0 <= i < steps.len() ==> !((#[trigger] steps[i]) is AwaitStub || steps[i]
                    is Settle)
        }),
{
    let steps = planned(mister, baud, command);
    let asked = command->Download_wait || command->Download_reset;
    assert forall|i: int, j: int|
        #![trigger steps[i], steps[j]]
        0 <= i < j < steps.len() implies stage(command, steps[i]) < stage(command, steps[j]) by {
        law_plans_are_in_order(mister, baud, command, i, j);
    }
    assert forall|step: Step| #[trigger] steps.contains(step) && (step is AwaitStub || step
        is Settle) implies asked by {
        lemma_waiting_steps(mister, baud, command, step);
    }
    lemma_waiting_steps(mister, baud, command, steps[transfer]);
    lemma_waiting_steps(mister, baud, command, Step::AwaitStub { limit: 4096 });
    lemma_waiting_steps(mister, baud, command, Step::Settle { milliseconds: 500 });
    assert(steps.contains(steps[transfer]));
    lemma_awaits(command, steps, transfer, asked);
}

/// Steps that are in order, among them those around a wait if they are asked for.
proof fn lemma_awaits(command: Command, steps: Seq<Step>, transfer: int, asked: bool)
    requires
        0 <= transfer < steps.len(),
        steps[transfer] is Download,
        forall|i: int, j: int|
            #![trigger steps[i], steps[j]]
            0 <= i < j < steps.len() ==> stage(command, steps[i]) < stage(command, steps[j]),
        asked ==> steps.contains(Step::AwaitStub { limit: 4096 }),
        asked ==> steps.contains(Step::Settle { milliseconds: 500 }),
        forall|step: Step| #[trigger]
            steps.contains(step) && (step is AwaitStub || step is Settle) ==> asked,
    ensures
        asked <==> exists|i: int, j: int|
            0 <= i < j < transfer && #[trigger] steps[i] == (Step::AwaitStub { limit: 4096 })
                && #[trigger] steps[j] == (Step::Settle { milliseconds: 500 }),
        !asked ==> forall|i: int|
            0 <= i < steps.len() ==> !((#[trigger] steps[i]) is AwaitStub || steps[i] is Settle),
{
    if asked {
        let i = steps.index_of(Step::AwaitStub { limit: 4096 });
        let j = steps.index_of(Step::Settle { milliseconds: 500 });
        assert(steps[i] == (Step::AwaitStub { limit: 4096 }) && steps[j] == (Step::Settle {
            milliseconds: 500,
        }));
        assert(0 <= i < j < transfer);
    } else {
        assert forall|i: int| 0 <= i < steps.len() implies !((#[trigger] steps[i]) is AwaitStub
            || steps[i] is Settle) by {
            assert(steps.contains(steps[i]));
        }
    }
}

/// The steps around a wait, of a download that is carried out.
proof fn lemma_waiting_steps(mister: bool, baud: u32, command: Command, step: Step)
    requires
        command is Download,
    ensures
        ({
            let steps = planned(mister, baud, command);
            let asked = command->Download_wait || command->Download_reset;
            let goes_on = !(mister && command->Download_terminal_baud is Some) && 1
                <= command->Download_chunk_size <= 0xffff;
            &&& step is Download && steps.contains(step) ==> goes_on
            &&& step == (Step::AwaitStub { limit: 4096 }) && goes_on && asked ==> steps.contains(
                step,
            )
            &&& step == (Step::Settle { milliseconds: 500 }) && goes_on && asked
                ==> steps.contains(step)
            &&& (step is AwaitStub || step is Settle) && steps.contains(step) ==> asked
        }),
{
    law_plans_hold_what_was_asked_for(mister, baud, command, step);
}

/// A player that announces itself with EM has a full Stub, and only that one has.
/// Every other player has the download subset of its ROM, which can take an
/// image but serves nothing else; its port goes to 19200 baud, unless it is a
/// MiSTer. No port changes its speed for a full Stub.
pub proof fn law_markers_tell_stub_from_subset(mister: bool, command: Command, marker: u8)
    ensures
        greeted(mister, command, marker) == AfterGreeting::Stub <==> marker == 0x19,
        greeted(mister, command, marker) is Refuse <==> marker != 0x19 && (command is Upload
            || command is List || command is Get || command is Put || command is Delete
            || command is Mount),
        greeted(mister, command, marker) matches AfterGreeting::Refuse(error) ==> error
            == UsageError::DownloadSubsetActive,
        greeted(mister, command, marker) == AfterGreeting::Subset <==> marker != 0x19 && mister
            && (command is Wait || command is Download || command is Stub),
        greeted(mister, command, marker) is SubsetAt <==> marker != 0x19 && !mister && (command
            is Wait || command is Download || command is Stub),
        greeted(mister, command, marker) matches AfterGreeting::SubsetAt { baud } ==> baud
            == 19_200,
{
}

/// A speed that the Stub chose is used as it is, and only a Stub that chose none
/// is refused.
pub proof fn law_chosen_speeds_are_used(selected: u32)
    ensures
        negotiated(selected) is Err <==> selected == 0,
        negotiated(selected) matches Ok(speed) ==> speed == selected,
        negotiated(selected) matches Err(error) ==> error == UsageError::NoBaudRateSwitching,
{
}

/// A terminal shows every byte that came. It stops only when the port fails
/// otherwise than by nothing coming.
pub proof fn law_terminals_show_what_came(outcome: Result<usize, IoErrorKind>)
    ensures
        outcome matches Ok(count) ==> after_read(outcome) == if count == 0 {
            TerminalStep::Again
        } else {
            TerminalStep::Show { count }
        },
        after_read(outcome) is Stop <==> (outcome matches Err(kind) && kind
            != IoErrorKind::TimedOut && kind != IoErrorKind::WouldBlock),
        after_read(outcome) is Show ==> outcome is Ok && outcome->Ok_0 > 0,
{
}

} // verus!
