//! What a command of the user comes to: the steps it takes, in order, and how
//! it goes on when an answer of the player decides that.

use vstd::prelude::*;
use vstd::string::*;

use crate::frame::EM;
use crate::transport::IoErrorKind;

verus! {

/// The speed at which a MiSTer is held.
pub const MISTER_BAUD: u32 = 115_200;

/// The speed of the ROM download subset after its bootstrap acknowledgement.
pub const SUBSET_BAUD: u32 = 19_200;

/// The byte that stops an application which was loaded before: Ctrl-C.
pub const RESET_BYTE: u8 = 0x03;

/// How much a player may say before it announces itself.
pub const BANNER_LIMIT: usize = 4096;

/// Where the module of a full Stub is loaded.
pub const STUB_ADDRESS: u32 = 0x8000;

/// How much of an image is transferred at a time, unless the user says else.
pub const DEFAULT_CHUNK_SIZE: usize = 256;

/// How long a player is left alone after it announced itself.
pub const SETTLE_MILLISECONDS: u64 = 500;

/// A command of the user.
#[derive(Clone, Copy, Debug, PartialEq, Eq, Structural)]
pub enum Command {
    /// Wait until a running Stub announces itself.
    Wait { max_banner_bytes: usize },
    /// Download an application image from the host to the player.
    Download {
        address: u32,
        chunk_size: usize,
        wait: bool,
        reset: bool,
        execute: bool,
        wait_for_return: bool,
        end: bool,
        terminal: bool,
        terminal_baud: Option<u32>,
    },
    /// Upload a range of the player's memory to the host.
    Upload {
        address: u32,
        size: usize,
        chunk_size: usize,
        upload_baud: Option<u32>,
        wait: bool,
        end: bool,
    },
    /// Start a full Stub from its module.
    Stub,
    /// Show a directory of the player.
    List { read_size: usize, wait: bool },
    /// Copy a file from the player.
    Get { chunk_size: usize, wait: bool },
    /// Copy a file to the player.
    Put { chunk_size: usize, wait: bool },
    /// Delete a file of the player.
    Delete { wait: bool },
    /// Make the player's files a part of the host's file system.
    Mount { wait: bool },
}

/// Why a command cannot be carried out as it was given.
#[derive(Clone, Copy, Debug, PartialEq, Eq, Structural)]
pub enum UsageError {
    /// A speed for the terminal, although a MiSTer has only one.
    TerminalBaudWithMister,
    /// A speed for the upload, although a MiSTer has only one.
    UploadBaudWithMister,
    InvalidChunkSize,
    EmptyUpload,
    /// The ROM download subset is active, which cannot read memory.
    DownloadSubsetActive,
    /// The Stub cannot change its speed.
    NoBaudRateSwitching,
}

/// A step of a command.
#[derive(Clone, Copy, Debug, PartialEq, Eq, Structural)]
pub enum Step {
    /// Say that the port is held at the speed of a MiSTer.
    AnnounceMister,
    /// Open the port at this speed, send the reset byte, and close it again.
    Reset { baud: u32 },
    /// Open the port at this speed and start a session.
    Open { baud: u32 },
    /// Give up.
    Refuse(UsageError),
    /// Read what is to be transferred from its file.
    ReadImage,
    /// Wait until the player announces itself, and show what it said.
    Greet { limit: usize },
    /// Wait until the player announces itself, then go on as
    /// [`after_greeting`] says.
    AwaitStub { limit: usize },
    /// Leave the player alone for a while.
    Settle { milliseconds: u64 },
    /// Transfer the image.
    Download { address: u32, chunk_size: usize },
    /// Start the application.
    Execute { address: u32 },
    /// Wait until the application returns.
    AwaitReturn,
    /// Agree on a speed, then go on as [`after_negotiation`] says.
    Negotiate { baud: u32 },
    /// Transfer the memory.
    Upload { address: u32, size: usize, chunk_size: usize },
    /// Write what was transferred to its file.
    Save,
    /// Show a directory.
    List { read_size: usize },
    /// Copy a file from the player.
    Get { chunk_size: usize },
    /// Copy what was read to a file of the player.
    Put { chunk_size: usize },
    /// Delete a file of the player.
    Delete,
    /// Serve the requests of the host's file system.
    Mount,
    /// End the Stub.
    End,
    /// Say that all is done.
    Done,
    /// Switch the port to the speed of the terminal.
    TerminalSpeed { baud: u32 },
    /// Show what the player sends from now on.
    Terminal,
}

/// What the user is told about a command that cannot be carried out.
pub open spec fn usage_text(error: UsageError) -> Seq<char> {
    match error {
        UsageError::TerminalBaudWithMister => {
            "--terminal-baud cannot be used with --mister; MiSTer mode is fixed at 115200 baud"@
        },
        UsageError::UploadBaudWithMister => {
            "--upload-baud cannot be used with --mister; MiSTer mode is fixed at 115200 baud"@
        },
        UsageError::InvalidChunkSize => "--chunk-size must be in 1..=65535"@,
        UsageError::EmptyUpload => "--size must be greater than zero"@,
        UsageError::DownloadSubsetActive => {
            "ROM download subset is active; it cannot read memory. Start a full cdi_stub first"@
        },
        UsageError::NoBaudRateSwitching => {
            "the running Stub does not support baud-rate switching"@
        },
    }
}

impl UsageError {
    /// What the user is told.
    pub fn message(&self) -> (text: String)
        ensures
            text@ == usage_text(*self),
    {
        match self {
            UsageError::TerminalBaudWithMister => {
                "--terminal-baud cannot be used with --mister; MiSTer mode is fixed at 115200 baud".to_owned()
            },
            UsageError::UploadBaudWithMister => {
                "--upload-baud cannot be used with --mister; MiSTer mode is fixed at 115200 baud".to_owned()
            },
            UsageError::InvalidChunkSize => "--chunk-size must be in 1..=65535".to_owned(),
            UsageError::EmptyUpload => "--size must be greater than zero".to_owned(),
            UsageError::DownloadSubsetActive => {
                "ROM download subset is active; it cannot read memory. Start a full cdi_stub first".to_owned()
            },
            UsageError::NoBaudRateSwitching => {
                "the running Stub does not support baud-rate switching".to_owned()
            },
        }
    }
}

/// The speed at which the port is opened.
pub open spec fn initial_baud(mister: bool, baud: u32) -> u32 {
    if mister {
        MISTER_BAUD
    } else {
        baud
    }
}

/// One step, if it is wanted.
pub open spec fn wanted(condition: bool, step: Step) -> Seq<Step> {
    if condition {
        seq![step]
    } else {
        Seq::empty()
    }
}

/// Wait for the player, if that is wanted.
pub open spec fn awaited(wait: bool) -> Seq<Step> {
    wanted(wait, Step::AwaitStub { limit: BANNER_LIMIT })
}

/// The switch to the speed of the terminal, if there is one.
pub open spec fn terminal_speed(terminal: bool, baud: Option<u32>) -> Seq<Step> {
    match baud {
        Some(baud) if terminal => seq![Step::TerminalSpeed { baud }],
        _ => Seq::empty(),
    }
}

/// The agreement on a speed, if one is wanted.
pub open spec fn negotiation(baud: Option<u32>) -> Seq<Step> {
    match baud {
        Some(baud) => seq![Step::Negotiate { baud }],
        None => Seq::empty(),
    }
}

/// The steps before a command gets to its own.
pub open spec fn opening(mister: bool, baud: u32, reset: bool) -> Seq<Step> {
    wanted(mister, Step::AnnounceMister) + wanted(
        reset,
        Step::Reset { baud: initial_baud(mister, baud) },
    ) + seq![Step::Open { baud: initial_baud(mister, baud) }]
}

/// A number of bytes that a request can carry.
pub open spec fn sendable(size: usize) -> bool {
    1 <= size <= 65535
}

/// The steps of a command of its own, once the port is open.
pub open spec fn own_steps(command: Command) -> Seq<Step> {
    match command {
        Command::Wait { max_banner_bytes } => seq![Step::Greet { limit: max_banner_bytes }],
        Command::Download {
            address,
            chunk_size,
            wait,
            reset,
            execute,
            wait_for_return,
            end,
            terminal,
            terminal_baud,
        } => if !sendable(chunk_size) {
            seq![Step::Refuse(UsageError::InvalidChunkSize)]
        } else {
            seq![Step::ReadImage] + wanted(
                wait || reset,
                Step::AwaitStub { limit: BANNER_LIMIT },
            ) + wanted(
                wait || reset,
                Step::Settle { milliseconds: SETTLE_MILLISECONDS },
            ) + seq![Step::Download { address, chunk_size }] + wanted(
                execute,
                Step::Execute { address },
            ) + wanted(execute && wait_for_return, Step::AwaitReturn) + wanted(end, Step::End)
                + seq![Step::Done] + terminal_speed(terminal, terminal_baud) + wanted(
                terminal,
                Step::Terminal,
            )
        },
        Command::Upload { address, size, chunk_size, upload_baud, wait, end } => if size == 0 {
            seq![Step::Refuse(UsageError::EmptyUpload)]
        } else if !sendable(chunk_size) {
            seq![Step::Refuse(UsageError::InvalidChunkSize)]
        } else {
            awaited(wait) + negotiation(upload_baud) + seq![
                Step::Upload { address, size, chunk_size },
            ] + seq![Step::Save] + wanted(end, Step::End) + seq![Step::Done]
        },
        Command::Stub => seq![
            Step::ReadImage,
            Step::AwaitStub { limit: BANNER_LIMIT },
            Step::Settle { milliseconds: SETTLE_MILLISECONDS },
            Step::Download { address: STUB_ADDRESS, chunk_size: DEFAULT_CHUNK_SIZE },
            Step::End,
            Step::Done,
        ],
        Command::List { read_size, wait } => awaited(wait) + seq![Step::List { read_size }]
            + seq![Step::Done],
        Command::Get { chunk_size, wait } => awaited(wait) + seq![Step::Get { chunk_size }]
            + seq![Step::Save] + seq![Step::Done],
        Command::Put { chunk_size, wait } => awaited(wait) + seq![Step::ReadImage]
            + seq![Step::Put { chunk_size }] + seq![Step::Done],
        Command::Delete { wait } => awaited(wait) + seq![Step::Delete] + seq![Step::Done],
        Command::Mount { wait } => awaited(wait) + seq![Step::Mount],
    }
}

/// The command asks for another speed than that of a MiSTer.
pub open spec fn mister_conflict(command: Command) -> Option<UsageError> {
    match command {
        Command::Download { terminal_baud: Some(_), .. } => {
            Some(UsageError::TerminalBaudWithMister)
        },
        Command::Upload { upload_baud: Some(_), .. } => Some(UsageError::UploadBaudWithMister),
        _ => None,
    }
}

/// The steps of a command.
pub open spec fn planned(mister: bool, baud: u32, command: Command) -> Seq<Step> {
    match mister_conflict(command) {
        Some(error) if mister => seq![Step::Refuse(error)],
        _ => opening(mister, baud, resets(command)) + own_steps(command),
    }
}

/// The command begins with a reset of the player.
pub open spec fn resets(command: Command) -> bool {
    match command {
        Command::Download { reset, .. } => reset,
        Command::Stub => true,
        _ => false,
    }
}

/// The command needs a full Stub; the download subset of the ROM will not do.
pub open spec fn needs_full_stub(command: Command) -> bool {
    !(command is Wait || command is Download || command is Stub)
}

/// How a command goes on when the player has announced itself with a byte. A
/// full Stub does so with `EM`, and only it.
pub open spec fn greeted(mister: bool, command: Command, marker: u8) -> AfterGreeting {
    if marker == EM {
        AfterGreeting::Stub
    } else if needs_full_stub(command) {
        AfterGreeting::Refuse(UsageError::DownloadSubsetActive)
    } else if mister {
        AfterGreeting::Subset
    } else {
        AfterGreeting::SubsetAt { baud: SUBSET_BAUD }
    }
}

/// Adds a step, if it is wanted.
fn push_wanted(steps: &mut Vec<Step>, condition: bool, step: Step)
    ensures
        final(steps)@ == old(steps)@ + wanted(condition, step),
{
    if condition {
        steps.push(step);
    }
    assert(steps@ =~= old(steps)@ + wanted(condition, step));
}

/// Adds the switch to the speed of the terminal, if there is one.
fn push_speed(steps: &mut Vec<Step>, terminal: bool, baud: Option<u32>)
    ensures
        final(steps)@ == old(steps)@ + terminal_speed(terminal, baud),
{
    if let Some(baud) = baud {
        if terminal {
            steps.push(Step::TerminalSpeed { baud });
        }
    }
    assert(steps@ =~= old(steps)@ + terminal_speed(terminal, baud));
}

/// Adds the agreement on a speed, if one is wanted.
fn push_negotiation(steps: &mut Vec<Step>, baud: Option<u32>)
    ensures
        final(steps)@ == old(steps)@ + negotiation(baud),
{
    if let Some(baud) = baud {
        steps.push(Step::Negotiate { baud });
    }
    assert(steps@ =~= old(steps)@ + negotiation(baud));
}

/// Adds a step.
fn push_step(steps: &mut Vec<Step>, step: Step)
    ensures
        final(steps)@ == old(steps)@ + seq![step],
{
    steps.push(step);
    assert(steps@ =~= old(steps)@ + seq![step]);
}

/// A list of one step.
fn one_step(step: Step) -> (steps: Vec<Step>)
    ensures
        steps@ == seq![step],
{
    let mut steps: Vec<Step> = Vec::new();
    steps.push(step);
    assert(steps@ =~= seq![step]);
    steps
}

/// The wait for the player, if that is wanted.
fn awaited_steps(wait: bool) -> (steps: Vec<Step>)
    ensures
        steps@ == awaited(wait),
{
    let mut steps: Vec<Step> = Vec::new();
    push_wanted(&mut steps, wait, Step::AwaitStub { limit: BANNER_LIMIT });
    assert(steps@ =~= awaited(wait));
    steps
}

/// The steps of a command of its own, once the port is open.
fn own_steps_of(command: Command) -> (steps: Vec<Step>)
    ensures
        steps@ == own_steps(command),
{
    match command {
        Command::Wait { max_banner_bytes } => one_step(Step::Greet { limit: max_banner_bytes }),
        Command::Download {
            address,
            chunk_size,
            wait,
            reset,
            execute,
            wait_for_return,
            end,
            terminal,
            terminal_baud,
        } => {
            if chunk_size == 0 || chunk_size > 65535 {
                return one_step(Step::Refuse(UsageError::InvalidChunkSize));
            }
            let mut steps: Vec<Step> = one_step(Step::ReadImage);
            push_wanted(&mut steps, wait || reset, Step::AwaitStub { limit: BANNER_LIMIT });
            push_wanted(
                &mut steps,
                wait || reset,
                Step::Settle { milliseconds: SETTLE_MILLISECONDS },
            );
            push_step(&mut steps, Step::Download { address, chunk_size });
            push_wanted(&mut steps, execute, Step::Execute { address });
            push_wanted(&mut steps, execute && wait_for_return, Step::AwaitReturn);
            push_wanted(&mut steps, end, Step::End);
            push_step(&mut steps, Step::Done);
            push_speed(&mut steps, terminal, terminal_baud);
            push_wanted(&mut steps, terminal, Step::Terminal);
            steps
        },
        Command::Upload { address, size, chunk_size, upload_baud, wait, end } => {
            if size == 0 {
                return one_step(Step::Refuse(UsageError::EmptyUpload));
            }
            if chunk_size == 0 || chunk_size > 65535 {
                return one_step(Step::Refuse(UsageError::InvalidChunkSize));
            }
            let mut steps: Vec<Step> = awaited_steps(wait);
            push_negotiation(&mut steps, upload_baud);
            push_step(&mut steps, Step::Upload { address, size, chunk_size });
            push_step(&mut steps, Step::Save);
            push_wanted(&mut steps, end, Step::End);
            push_step(&mut steps, Step::Done);
            steps
        },
        Command::Stub => {
            let mut steps: Vec<Step> = Vec::new();
            steps.push(Step::ReadImage);
            steps.push(Step::AwaitStub { limit: BANNER_LIMIT });
            steps.push(Step::Settle { milliseconds: SETTLE_MILLISECONDS });
            steps.push(
                Step::Download { address: STUB_ADDRESS, chunk_size: DEFAULT_CHUNK_SIZE },
            );
            steps.push(Step::End);
            steps.push(Step::Done);
            assert(steps@ =~= own_steps(command));
            steps
        },
        Command::List { read_size, wait } => {
            let mut steps: Vec<Step> = awaited_steps(wait);
            push_step(&mut steps, Step::List { read_size });
            push_step(&mut steps, Step::Done);
            steps
        },
        Command::Get { chunk_size, wait } => {
            let mut steps: Vec<Step> = awaited_steps(wait);
            push_step(&mut steps, Step::Get { chunk_size });
            push_step(&mut steps, Step::Save);
            push_step(&mut steps, Step::Done);
            steps
        },
        Command::Put { chunk_size, wait } => {
            let mut steps: Vec<Step> = awaited_steps(wait);
            push_step(&mut steps, Step::ReadImage);
            push_step(&mut steps, Step::Put { chunk_size });
            push_step(&mut steps, Step::Done);
            steps
        },
        Command::Delete { wait } => {
            let mut steps: Vec<Step> = awaited_steps(wait);
            push_step(&mut steps, Step::Delete);
            push_step(&mut steps, Step::Done);
            steps
        },
        Command::Mount { wait } => {
            let mut steps: Vec<Step> = awaited_steps(wait);
            push_step(&mut steps, Step::Mount);
            steps
        },
    }
}

/// The steps of a command, in order.
pub fn plan(mister: bool, baud: u32, command: Command) -> (steps: Vec<Step>)
    ensures
        steps@ == planned(mister, baud, command),
{
    let mut steps: Vec<Step> = Vec::new();
    let mut reset_wanted: bool = false;
    match command {
        Command::Download { reset, terminal_baud, .. } => {
            if mister && terminal_baud.is_some() {
                steps.push(Step::Refuse(UsageError::TerminalBaudWithMister));
                assert(steps@ =~= planned(mister, baud, command));
                return steps;
            }
            reset_wanted = reset;
        },
        Command::Upload { upload_baud, .. } => {
            if mister && upload_baud.is_some() {
                steps.push(Step::Refuse(UsageError::UploadBaudWithMister));
                assert(steps@ =~= planned(mister, baud, command));
                return steps;
            }
        },
        Command::Stub => {
            reset_wanted = true;
        },
        _ => {},
    }
    let speed: u32 = if mister { MISTER_BAUD } else { baud };
    push_wanted(&mut steps, mister, Step::AnnounceMister);
    push_wanted(&mut steps, reset_wanted, Step::Reset { baud: speed });
    push_step(&mut steps, Step::Open { baud: speed });
    assert(steps@ =~= opening(mister, baud, reset_wanted));
    let mut own: Vec<Step> = own_steps_of(command);
    steps.append(&mut own);
    assert(steps@ =~= planned(mister, baud, command));
    steps
}

/// How a command goes on when the player has announced itself.
#[derive(Clone, Copy, Debug, PartialEq, Eq, Structural)]
pub enum AfterGreeting {
    /// A Stub answered: say so.
    Stub,
    /// The download subset answered: say so.
    Subset,
    /// The download subset answered: say so, and switch to its speed.
    SubsetAt { baud: u32 },
    /// Give up.
    Refuse(UsageError),
}

/// How a command goes on when the player has announced itself with a byte. The
/// download subset knows no uploads, and it switches to a speed of its own.
pub fn after_greeting(mister: bool, command: Command, marker: u8) -> (next: AfterGreeting)
    ensures
        next == greeted(mister, command, marker),
{
    if marker == EM {
        return AfterGreeting::Stub;
    }
    match command {
        Command::Wait { .. } | Command::Download { .. } | Command::Stub => if mister {
            AfterGreeting::Subset
        } else {
            AfterGreeting::SubsetAt { baud: SUBSET_BAUD }
        },
        _ => AfterGreeting::Refuse(UsageError::DownloadSubsetActive),
    }
}

/// The speed to switch the port to, once the Stub has chosen one.
pub open spec fn negotiated(selected: u32) -> Result<u32, UsageError> {
    if selected == 0 {
        Err(UsageError::NoBaudRateSwitching)
    } else {
        Ok(selected)
    }
}

/// The speed to switch the port to, once the Stub has chosen one. It chooses
/// zero if it cannot change its speed.
pub fn after_negotiation(selected: u32) -> (next: Result<u32, UsageError>)
    ensures
        next == negotiated(selected),
{
    if selected == 0 {
        Err(UsageError::NoBaudRateSwitching)
    } else {
        Ok(selected)
    }
}

/// What a terminal does with the outcome of a read.
#[derive(Clone, Copy, Debug, PartialEq, Eq, Structural)]
pub enum TerminalStep {
    /// Nothing came; read again.
    Again,
    /// Show so many bytes, then read again.
    Show { count: usize },
    /// The port failed.
    Stop,
}

/// What a terminal does with the outcome of a read: what came is shown, and if
/// nothing came in time it reads again.
pub open spec fn after_read(outcome: Result<usize, IoErrorKind>) -> TerminalStep {
    match outcome {
        Ok(count) => if count == 0 {
            TerminalStep::Again
        } else {
            TerminalStep::Show { count }
        },
        Err(kind) => if kind == IoErrorKind::TimedOut || kind == IoErrorKind::WouldBlock {
            TerminalStep::Again
        } else {
            TerminalStep::Stop
        },
    }
}

/// What a terminal does with the outcome of a read.
pub fn terminal_step(outcome: Result<usize, IoErrorKind>) -> (next: TerminalStep)
    ensures
        next == after_read(outcome),
{
    match outcome {
        Ok(count) => if count == 0 {
            TerminalStep::Again
        } else {
            TerminalStep::Show { count }
        },
        Err(kind) => match kind {
            IoErrorKind::TimedOut | IoErrorKind::WouldBlock => TerminalStep::Again,
            _ => TerminalStep::Stop,
        },
    }
}

/// The step leaves the port at the speed of a MiSTer.
pub open spec fn keeps_mister_speed(step: Step) -> bool {
    match step {
        Step::Reset { baud } | Step::Open { baud } => baud == MISTER_BAUD,
        Step::Negotiate { .. } | Step::TerminalSpeed { .. } => false,
        _ => true,
    }
}

/// All steps are such as a predicate says.
#[verifier::opaque]
spec fn all_are(steps: Seq<Step>, predicate: spec_fn(Step) -> bool) -> bool {
    forall|i: int| 0 <= i < steps.len() ==> predicate(#[trigger] steps[i])
}

/// Lists whose steps are all such, put together, are one.
proof fn lemma_all_are(predicate: spec_fn(Step) -> bool)
    ensures
        forall|first: Seq<Step>, second: Seq<Step>|
            all_are(first, predicate) && all_are(second, predicate) ==> all_are(
                #[trigger] (first + second),
                predicate,
            ),
        forall|step: Step| predicate(step) ==> all_are(#[trigger] seq![step], predicate),
        forall|condition: bool, step: Step|
            predicate(step) ==> all_are(#[trigger] wanted(condition, step), predicate),
        all_are(Seq::empty(), predicate),
{
    reveal(all_are);
    assert forall|first: Seq<Step>, second: Seq<Step>|
        all_are(first, predicate) && all_are(second, predicate) implies all_are(
        #[trigger] (first + second),
        predicate,
    ) by {
        assert forall|i: int| 0 <= i < (first + second).len() implies predicate(
            #[trigger] (first + second)[i],
        ) by {
            if i < first.len() {
                assert((first + second)[i] == first[i]);
            } else {
                assert((first + second)[i] == second[i - first.len()]);
            }
        }
    }
}

/// A MiSTer is held at its speed by every command, whatever the player says.
pub proof fn law_mister_speed_is_fixed(baud: u32, command: Command, marker: u8)
    ensures
        forall|i: int|
            0 <= i < planned(true, baud, command).len() ==> keeps_mister_speed(
                #[trigger] planned(true, baud, command)[i],
            ),
        !(greeted(true, command, marker) is SubsetAt),
{
    let predicate = |step: Step| keeps_mister_speed(step);
    assert(all_are(planned(true, baud, command), predicate)) by {
        lemma_all_are(predicate);
        if command is Stub {
            reveal(all_are);
            assert(all_are(own_steps(command), predicate));
        }
    }
    reveal(all_are);
    assert forall|i: int| 0 <= i < planned(true, baud, command).len() implies keeps_mister_speed(
        #[trigger] planned(true, baud, command)[i],
    ) by {
        assert(predicate(planned(true, baud, command)[i]));
    }
}

/// The command goes no further than to be refused.
pub open spec fn refused_early(command: Command) -> bool {
    match command {
        Command::Download { chunk_size, .. } => !sendable(chunk_size),
        Command::Upload { size, chunk_size, .. } => size == 0 || !sendable(chunk_size),
        _ => false,
    }
}

/// A command that cannot be carried out is refused before anything is sent to
/// the player but the reset, if one is wanted; and nothing comes after that.
pub proof fn law_refusals_end_a_command(mister: bool, baud: u32, command: Command, index: int)
    requires
        0 <= index < planned(mister, baud, command).len(),
        planned(mister, baud, command)[index] is Refuse,
    ensures
        index == planned(mister, baud, command).len() - 1,
        forall|i: int|
            0 <= i < index ==> {
                let step = #[trigger] planned(mister, baud, command)[i];
                step is AnnounceMister || step is Reset || step is Open
            },
{
    let conflict = mister && mister_conflict(command) is Some;
    let first = opening(mister, baud, resets(command));
    let own = own_steps(command);
    let whole = planned(mister, baud, command);
    if !conflict {
        assert forall|i: int| 0 <= i < first.len() implies ({
            let step = #[trigger] first[i];
            step is AnnounceMister || step is Reset || step is Open
        }) by {}
        if refused_early(command) {
            assert(own.len() == 1);
            assert(index == first.len()) by {
                if index < first.len() {
                    assert(whole[index] == first[index]);
                }
            }
        } else {
            let predicate = |step: Step| !(step is Refuse);
            assert(all_are(own, predicate)) by {
                lemma_all_are(predicate);
                if command is Stub || command is Wait {
                    reveal(all_are);
                    assert(all_are(own_steps(command), predicate));
                }
            }
            reveal(all_are);
            if index < first.len() {
                assert(whole[index] == first[index]);
            } else {
                assert(whole[index] == own[index - first.len()]);
                assert(predicate(own[index - first.len()]));
            }
        }
        assert forall|i: int| 0 <= i < index implies ({
            let step = #[trigger] whole[i];
            step is AnnounceMister || step is Reset || step is Open
        }) by {
            assert(whole[i] == first[i]);
        }
    }
}

/// Nothing is uploaded, copied or shown by a player that only has the download
/// subset.
pub proof fn law_subset_cannot_serve(mister: bool, command: Command, marker: u8)
    requires
        needs_full_stub(command),
        marker != EM,
    ensures
        greeted(mister, command, marker) == AfterGreeting::Refuse(
            UsageError::DownloadSubsetActive,
        ),
{
}

/// A reset implies a wait: with it, it makes no difference whether the user asks
/// for the wait as well.
pub proof fn law_reset_implies_wait(mister: bool, baud: u32, command: Command, asked: Command)
    requires
        command matches Command::Download { wait: false, reset: true, .. },
        asked == (match command {
            Command::Download {
                address,
                chunk_size,
                reset,
                execute,
                wait_for_return,
                end,
                terminal,
                terminal_baud,
                ..
            } => Command::Download {
                address,
                chunk_size,
                wait: true,
                reset,
                execute,
                wait_for_return,
                end,
                terminal,
                terminal_baud,
            },
            other => other,
        }),
    ensures
        planned(mister, baud, command) == planned(mister, baud, asked),
{
}

/// A file of the host is written only after the transfer that fills it.
pub proof fn law_files_are_saved_after_the_transfer(
    mister: bool,
    baud: u32,
    command: Command,
    index: int,
)
    requires
        0 <= index < planned(mister, baud, command).len(),
        planned(mister, baud, command)[index] is Save,
    ensures
        index > 0,
        ({
            let before = planned(mister, baud, command)[index - 1];
            before is Upload || before is Get
        }),
{
    let first = opening(mister, baud, resets(command));
    let own = own_steps(command);
    let whole = planned(mister, baud, command);
    let conflict = mister && mister_conflict(command) is Some;
    assert(!conflict);
    let at = index - first.len();
    if index < first.len() {
        assert(whole[index] == first[index]);
    } else {
        assert(whole[index] == own[at]);
        match command {
            Command::Upload { wait, upload_baud, .. } => {
                let front = awaited(wait) + negotiation(upload_baud);
                assert(at == front.len() + 1);
                assert(own[at - 1] is Upload);
            },
            Command::Get { wait, .. } => {
                assert(at == awaited(wait).len() + 1);
                assert(own[at - 1] is Get);
            },
            _ => {
                let predicate = |step: Step| !(step is Save);
                assert(all_are(own, predicate)) by {
                    lemma_all_are(predicate);
                    if command is Stub || command is Wait {
                        reveal(all_are);
                        assert(all_are(own_steps(command), predicate));
                    }
                }
                reveal(all_are);
                assert(predicate(own[at]));
            },
        }
        assert(whole[index - 1] == own[at - 1]);
    }
}

} // verus!
