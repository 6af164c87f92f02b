use cdi_serial::plan::{
    after_greeting, after_negotiation, plan, terminal_step, AfterGreeting, Command, Step,
    TerminalStep, UsageError,
};
use cdi_serial::{IoErrorKind, DLE, EM, SOH};

fn download() -> Command {
    Command::Download {
        address: 0x8000,
        chunk_size: 256,
        wait: false,
        reset: false,
        execute: false,
        wait_for_return: false,
        end: false,
        terminal: false,
        terminal_baud: None,
    }
}

fn upload() -> Command {
    Command::Upload {
        address: 0x40_0000,
        size: 524_288,
        chunk_size: 256,
        upload_baud: None,
        wait: false,
        end: false,
    }
}

#[test]
fn a_plain_download_is_short() {
    assert_eq!(
        plan(false, 9600, download()),
        vec![
            Step::Open { baud: 9600 },
            Step::ReadImage,
            Step::Download { address: 0x8000, chunk_size: 256 },
            Step::Done,
        ]
    );
}

#[test]
fn a_full_download_has_every_step() {
    let command = Command::Download {
        address: 0x8000,
        chunk_size: 100,
        wait: false,
        reset: true,
        execute: true,
        wait_for_return: true,
        end: true,
        terminal: true,
        terminal_baud: Some(4800),
    };
    assert_eq!(
        plan(false, 9600, command),
        vec![
            Step::Reset { baud: 9600 },
            Step::Open { baud: 9600 },
            Step::ReadImage,
            Step::AwaitStub { limit: 4096 },
            Step::Settle { milliseconds: 500 },
            Step::Download { address: 0x8000, chunk_size: 100 },
            Step::Execute { address: 0x8000 },
            Step::AwaitReturn,
            Step::End,
            Step::Done,
            Step::TerminalSpeed { baud: 4800 },
            Step::Terminal,
        ]
    );
}

#[test]
fn a_reset_implies_a_wait() {
    let with = |wait: bool| Command::Download {
        address: 0x8000,
        chunk_size: 256,
        wait,
        reset: true,
        execute: false,
        wait_for_return: false,
        end: true,
        terminal: false,
        terminal_baud: None,
    };
    assert_eq!(plan(true, 9600, with(false)), plan(true, 9600, with(true)));
    assert!(plan(true, 9600, with(false)).contains(&Step::AwaitStub { limit: 4096 }));
}

#[test]
fn files_are_saved_after_the_transfer() {
    for command in [upload(), Command::Get { chunk_size: 256, wait: true }] {
        let steps = plan(false, 9600, command);
        let save = steps.iter().position(|step| *step == Step::Save).unwrap();
        assert!(matches!(
            steps[save - 1],
            Step::Upload { .. } | Step::Get { .. }
        ));
    }
}

#[test]
fn an_upload_negotiates_before_it_reads() {
    let command = Command::Upload {
        address: 0x40_0000,
        size: 10,
        chunk_size: 256,
        upload_baud: Some(19_200),
        wait: true,
        end: true,
    };
    assert_eq!(
        plan(false, 9600, command),
        vec![
            Step::Open { baud: 9600 },
            Step::AwaitStub { limit: 4096 },
            Step::Negotiate { baud: 19_200 },
            Step::Upload { address: 0x40_0000, size: 10, chunk_size: 256 },
            Step::Save,
            Step::End,
            Step::Done,
        ]
    );
}

#[test]
fn the_other_commands_have_few_steps() {
    assert_eq!(
        plan(false, 9600, Command::Wait { max_banner_bytes: 77 }),
        vec![Step::Open { baud: 9600 }, Step::Greet { limit: 77 }]
    );
    assert_eq!(
        plan(false, 9600, Command::Stub),
        vec![
            Step::Reset { baud: 9600 },
            Step::Open { baud: 9600 },
            Step::ReadImage,
            Step::AwaitStub { limit: 4096 },
            Step::Settle { milliseconds: 500 },
            Step::Download { address: 0x8000, chunk_size: 256 },
            Step::End,
            Step::Done,
        ]
    );
    assert_eq!(
        plan(false, 9600, Command::List { read_size: 64, wait: true }),
        vec![
            Step::Open { baud: 9600 },
            Step::AwaitStub { limit: 4096 },
            Step::List { read_size: 64 },
            Step::Done,
        ]
    );
    assert_eq!(
        plan(false, 9600, Command::Get { chunk_size: 5, wait: false }),
        vec![
            Step::Open { baud: 9600 },
            Step::Get { chunk_size: 5 },
            Step::Save,
            Step::Done,
        ]
    );
    assert_eq!(
        plan(false, 9600, Command::Put { chunk_size: 5, wait: false }),
        vec![
            Step::Open { baud: 9600 },
            Step::ReadImage,
            Step::Put { chunk_size: 5 },
            Step::Done,
        ]
    );
    assert_eq!(
        plan(false, 9600, Command::Delete { wait: false }),
        vec![Step::Open { baud: 9600 }, Step::Delete, Step::Done]
    );
    assert_eq!(
        plan(false, 9600, Command::Mount { wait: false }),
        vec![Step::Open { baud: 9600 }, Step::Mount]
    );
}

#[test]
fn a_mister_is_held_at_its_speed() {
    let steps = plan(true, 9600, upload());
    assert_eq!(steps[..2], [Step::AnnounceMister, Step::Open { baud: 115_200 }]);
    assert_eq!(after_greeting(true, download(), SOH), AfterGreeting::Subset);
    assert_eq!(after_greeting(false, download(), SOH), AfterGreeting::SubsetAt { baud: 19_200 });
}

#[test]
fn a_mister_has_no_other_speeds() {
    let mut command = download();
    if let Command::Download { terminal_baud, .. } = &mut command {
        *terminal_baud = Some(9600);
    }
    assert_eq!(
        plan(true, 9600, command),
        vec![Step::Refuse(UsageError::TerminalBaudWithMister)]
    );
    assert_eq!(
        UsageError::TerminalBaudWithMister.message(),
        "--terminal-baud cannot be used with --mister; MiSTer mode is fixed at 115200 baud"
    );
    let mut command = upload();
    if let Command::Upload { upload_baud, .. } = &mut command {
        *upload_baud = Some(9600);
    }
    assert_eq!(
        plan(true, 9600, command),
        vec![Step::Refuse(UsageError::UploadBaudWithMister)]
    );
    assert_eq!(
        UsageError::UploadBaudWithMister.message(),
        "--upload-baud cannot be used with --mister; MiSTer mode is fixed at 115200 baud"
    );
}

#[test]
fn sizes_are_checked_before_a_transfer() {
    for size in [0, 65536] {
        let mut command = download();
        if let Command::Download { chunk_size, .. } = &mut command {
            *chunk_size = size;
        }
        assert_eq!(
            plan(false, 1, command),
            vec![Step::Open { baud: 1 }, Step::Refuse(UsageError::InvalidChunkSize)]
        );
        let mut command = upload();
        if let Command::Upload { chunk_size, .. } = &mut command {
            *chunk_size = size;
        }
        assert_eq!(
            plan(false, 1, command),
            vec![Step::Open { baud: 1 }, Step::Refuse(UsageError::InvalidChunkSize)]
        );
    }
    let mut command = upload();
    if let Command::Upload { size, .. } = &mut command {
        *size = 0;
    }
    assert_eq!(
        plan(false, 1, command),
        vec![Step::Open { baud: 1 }, Step::Refuse(UsageError::EmptyUpload)]
    );
    assert_eq!(UsageError::InvalidChunkSize.message(), "--chunk-size must be in 1..=65535");
    assert_eq!(UsageError::EmptyUpload.message(), "--size must be greater than zero");
}

#[test]
fn the_download_subset_cannot_read_memory() {
    let refusal = AfterGreeting::Refuse(UsageError::DownloadSubsetActive);
    assert_eq!(after_greeting(false, upload(), SOH), refusal);
    assert_eq!(after_greeting(false, upload(), DLE), refusal);
    assert_eq!(after_greeting(true, Command::Mount { wait: true }, DLE), refusal);
    assert_eq!(after_greeting(false, upload(), EM), AfterGreeting::Stub);
    assert_eq!(
        UsageError::DownloadSubsetActive.message(),
        "ROM download subset is active; it cannot read memory. Start a full cdi_stub first"
    );
}

#[test]
fn a_stub_can_refuse_to_change_its_speed() {
    assert_eq!(after_negotiation(19_200), Ok(19_200));
    assert_eq!(after_negotiation(0), Err(UsageError::NoBaudRateSwitching));
    assert_eq!(
        UsageError::NoBaudRateSwitching.message(),
        "the running Stub does not support baud-rate switching"
    );
}

#[test]
fn a_terminal_goes_on_until_the_port_fails() {
    assert_eq!(terminal_step(Ok(0)), TerminalStep::Again);
    assert_eq!(terminal_step(Ok(5)), TerminalStep::Show { count: 5 });
    assert_eq!(terminal_step(Err(IoErrorKind::TimedOut)), TerminalStep::Again);
    assert_eq!(terminal_step(Err(IoErrorKind::WouldBlock)), TerminalStep::Again);
    assert_eq!(terminal_step(Err(IoErrorKind::Interrupted)), TerminalStep::Stop);
    assert_eq!(terminal_step(Err(IoErrorKind::Other)), TerminalStep::Stop);
}
