//! What the operations on files come to with a player that does everything
//! right.

use vstd::prelude::*;
use vstd::utf8::encode_utf8;

use crate::dialogue::follows;
use crate::error::Failure;
use crate::frame::{be32, value32, REG_A0, REG_D0, REG_D1};
use crate::laws::{law_data_comes_from_the_player, law_numbers_round_trip};
use crate::line::{Call, Event};
use crate::player::{
    bytes_left, called, consists, lemma_consists_concat, lemma_consists_none, lemma_consists_one,
    lemma_loaded, lemma_masks, lemma_run_concat, lemma_text_at, loaded, named_path, names_directory,
    performed, run, shown_registers, step, stored, Action, Player,
};
use crate::record::lemma_first;
use crate::service;
use crate::service::{
    call_line, carry, path_bytes, sized_call_line, OS9_FILE_READ, OS9_FILE_READ_WRITE, OS9_I_CLOSE,
    OS9_I_CREATE, OS9_I_DELETE, OS9_I_OPEN, OS9_I_READ, OS9_I_WRITE, OS9_OWNER_READ_WRITE,
    Os9Failure, PathSteps,
};
use crate::stub;
use crate::stub::Settings;

verus! {

/// What is shown to the user, if that is wanted.
spec fn notes(trace: bool, line: Seq<char>) -> Seq<Action> {
    if trace {
        seq![Action::Note(line)]
    } else {
        Seq::empty()
    }
}

/// Showing a line to the user.
proof fn lemma_trace(settings: Settings, trace: bool, line: Seq<char>, log: Seq<Event>)
    requires
        follows(log, service::os9_trace(trace, line), ()),
    ensures
        consists(settings, notes(trace, line), log),
{
    if trace {
        assert(performed(settings, Action::Note(line), log)) by {
            reveal(performed);
        }
        lemma_consists_one(settings, Action::Note(line), log);
    } else {
        assert(log.len() == 0);
        lemma_consists_none(settings, log);
    }
}

/// The player knows nothing of it.
proof fn lemma_run_notes(player: Player, trace: bool, line: Seq<char>)
    ensures
        run(player, notes(trace, line)) == Some(player),
{
    let actions = notes(trace, line);
    if trace {
        assert(actions.skip(1) =~= Seq::empty());
        assert(run(player, actions.skip(1)) == Some(player));
    }
}

/// What a player does in a single action.
proof fn lemma_run_one(player: Player, action: Action)
    ensures
        run(player, seq![action]) == step(player, action),
{
    let actions = seq![action];
    assert(actions.skip(1) =~= Seq::empty());
    if let Some(next) = step(player, action) {
        assert(run(next, actions.skip(1)) == Some(next));
    }
}

/// A call, and what is shown of it.
spec fn call_actions(trace: bool, line: Seq<char>, call: u16, mask: u32) -> Seq<Action> {
    notes(trace, line) + seq![Action::Call { call, mask }]
}

/// What a call does.
proof fn lemma_run_call(player: Player, trace: bool, line: Seq<char>, call: u16, mask: u32)
    ensures
        run(player, call_actions(trace, line, call, mask)) == called(player, call, carry(mask)),
{
    lemma_run_concat(player, notes(trace, line), seq![Action::Call { call, mask }]);
    lemma_run_notes(player, trace, line);
    lemma_run_one(player, Action::Call { call, mask });
}

/// The record of a call. The result is the mask that came back.
proof fn lemma_plain_call(
    settings: Settings,
    trace: bool,
    line: Seq<char>,
    call: u16,
    calling: Seq<char>,
    log: Seq<Event>,
    refused: bool,
) -> (mask: u32)
    requires
        follows(
            log,
            service::plain_call(settings, trace, line, call, calling),
            Ok(refused),
        ),
    ensures
        carry(mask) == refused,
        consists(settings, call_actions(trace, line, call, mask), log),
{
    reveal(service::plain_call);
    let outcome = Ok::<bool, Os9Failure>(refused);
    let whole = service::plain_call(settings, trace, line, call, calling);
    let (first, _, rest, next) = lemma_first(
        service::os9_trace(trace, line),
        whole,
        log,
        outcome,
    );
    lemma_trace(settings, trace, line, first);
    let (second, called, last, _) = lemma_first(
        stub::os9_call(settings, call, 0),
        next,
        rest,
        outcome,
    );
    assert(last.len() == 0);
    assert(second =~= rest);
    let mask = called->Ok_0;
    let action = Action::Call { call, mask };
    assert(performed(settings, action, rest)) by {
        reveal(performed);
    }
    lemma_consists_one(settings, action, rest);
    lemma_consists_concat(settings, notes(trace, line), first, seq![action], rest);
    mask
}

/// A call with registers that are set before.
spec fn call_with_actions(
    trace: bool,
    line: Seq<char>,
    registers: u32,
    values: Seq<u32>,
    call: u16,
    mask: u32,
) -> Seq<Action> {
    seq![Action::SetRegisters { mask: registers, values }] + call_actions(trace, line, call, mask)
}

/// What such a call does.
proof fn lemma_run_call_with(
    player: Player,
    trace: bool,
    line: Seq<char>,
    registers: u32,
    values: Seq<u32>,
    call: u16,
    mask: u32,
)
    ensures
        run(player, call_with_actions(trace, line, registers, values, call, mask)) == called(
            step(player, Action::SetRegisters { mask: registers, values })->Some_0,
            call,
            carry(mask),
        ),
{
    let set = Action::SetRegisters { mask: registers, values };
    lemma_run_concat(player, seq![set], call_actions(trace, line, call, mask));
    lemma_run_one(player, set);
    lemma_run_call(step(player, set)->Some_0, trace, line, call, mask);
}

/// The record of such a call. The result is the mask that came back.
proof fn lemma_call_with(
    settings: Settings,
    trace: bool,
    line: Seq<char>,
    registers: u32,
    values: Seq<u32>,
    setting: Seq<char>,
    call: u16,
    calling: Seq<char>,
    log: Seq<Event>,
    refused: bool,
) -> (mask: u32)
    requires
        follows(
            log,
            service::call_with(
                settings,
                trace,
                line,
                registers,
                values,
                setting,
                call,
                calling,
            ),
            Ok(refused),
        ),
    ensures
        carry(mask) == refused,
        consists(
            settings,
            call_with_actions(trace, line, registers, values, call, mask),
            log,
        ),
{
    reveal(service::call_with);
    let outcome = Ok::<bool, Os9Failure>(refused);
    let whole = service::call_with(
        settings,
        trace,
        line,
        registers,
        values,
        setting,
        call,
        calling,
    );
    let (first, set, rest, _) = lemma_first(
        stub::set_registers(settings, registers, values),
        whole,
        log,
        outcome,
    );
    assert(set is Ok) by {
        if set is Err {
            assert(rest.len() == 0);
        }
    }
    let action = Action::SetRegisters { mask: registers, values };
    assert(performed(settings, action, first)) by {
        reveal(performed);
    }
    lemma_consists_one(settings, action, first);
    let mask = lemma_plain_call(settings, trace, line, call, calling, rest, refused);
    lemma_consists_concat(
        settings,
        seq![action],
        first,
        call_actions(trace, line, call, mask),
        rest,
    );
    mask
}

/// The record of three actions.
proof fn lemma_three(
    settings: Settings,
    one: Action,
    first: Seq<Event>,
    two: Action,
    second: Seq<Event>,
    three: Action,
    third: Seq<Event>,
)
    requires
        performed(settings, one, first),
        performed(settings, two, second),
        performed(settings, three, third),
    ensures
        consists(settings, seq![one, two, three], first + second + third),
{
    lemma_consists_one(settings, one, first);
    lemma_consists_one(settings, two, second);
    lemma_consists_one(settings, three, third);
    lemma_consists_concat(settings, seq![one], first, seq![two], second);
    lemma_consists_concat(settings, seq![one] + seq![two], first + second, seq![three], third);
    assert(seq![one] + seq![two] + seq![three] =~= seq![one, two, three]);
}

/// A path is brought to the player.
spec fn path_actions(path: Seq<char>, actual: usize, buffer: u32) -> Seq<Action> {
    seq![
        Action::Address(0),
        Action::Buffer { size: path_bytes(path).len(), result: (actual, buffer) },
        Action::Write(path_bytes(path)),
    ]
}

/// The record of that. The result is the actual size of the buffer.
proof fn lemma_place_path(
    settings: Settings,
    path: Seq<char>,
    steps: PathSteps,
    log: Seq<Event>,
    buffer: u32,
) -> (actual: usize)
    requires
        follows(log, service::place_path(settings, path, steps), Ok(buffer)),
    ensures
        consists(settings, path_actions(path, actual, buffer), log),
        path_bytes(path).len() <= 0xffff,
{
    reveal(service::place_path);
    let outcome = Ok::<u32, Os9Failure>(buffer);
    let size = path_bytes(path).len();
    let whole = service::place_path(settings, path, steps);
    let (first, addressed, rest, next) = lemma_first(
        stub::set_address(settings, 0),
        whole,
        log,
        outcome,
    );
    assert(addressed is Ok) by {
        if addressed is Err {
            assert(rest.len() == 0);
        }
    }
    let (second, allocated, last, next) = lemma_first(
        stub::allocate_buffer(settings, size),
        next,
        rest,
        outcome,
    );
    assert(allocated is Ok) by {
        if allocated is Err {
            assert(last.len() == 0);
        }
    }
    let (actual, address) = allocated->Ok_0;
    assert(actual >= size) by {
        if actual < size {
            assert(last.len() == 0);
        }
    }
    let (third, written, end, _) = lemma_first(
        stub::write(settings, path_bytes(path)),
        next,
        last,
        outcome,
    );
    assert(end.len() == 0);
    assert(third =~= last);
    assert(address == buffer);
    assert(size <= 0xffff) by {
        reveal(stub::allocate_buffer);
        if size > 0xffff {
            assert(second.len() == 0);
        }
    }
    let one = Action::Address(0);
    let two = Action::Buffer { size, result: (actual, buffer) };
    let three = Action::Write(path_bytes(path));
    assert(performed(settings, one, first) && performed(settings, two, second) && performed(
        settings,
        three,
        last,
    )) by {
        reveal(performed);
    }
    lemma_three(settings, one, first, two, second, three, last);
    assert(first + second + last =~= log);
    actual
}

/// What a player does with a path: it is in memory then.
proof fn lemma_run_path(player: Player, path: Seq<char>, actual: usize, buffer: u32)
    requires
        !service::holds_nul(path),
        path_bytes(path).len() <= 0xffff,
    ensures
        ({
            let after = run(player, path_actions(path, actual, buffer))->Some_0;
            &&& run(player, path_actions(path, actual, buffer)) is Some
            &&& after.files == player.files
            &&& forall|pointing: Player|
                pointing.memory == after.memory && pointing.a0 == buffer ==> #[trigger] named_path(
                    pointing,
                ) == encode_utf8(path)
        }),
{
    let one = Action::Address(0);
    let two = Action::Buffer { size: path_bytes(path).len(), result: (actual, buffer) };
    let three = Action::Write(path_bytes(path));
    let actions = path_actions(path, actual, buffer);
    assert(actions.skip(1) =~= seq![two, three]);
    assert(actions.skip(1).skip(1) =~= seq![three]);
    let addressed = step(player, one)->Some_0;
    assert(run(player, actions) == run(addressed, seq![two, three]));
    let allocated = step(addressed, two)->Some_0;
    assert(seq![two, three].skip(1) =~= seq![three]);
    assert(run(addressed, seq![two, three]) == run(allocated, seq![three]));
    lemma_run_one(allocated, three);
    let after = step(allocated, three)->Some_0;
    assert(after.memory == stored(player.memory, buffer as int, path_bytes(path)));
    assert forall|pointing: Player|
        pointing.memory == after.memory && pointing.a0 == buffer implies #[trigger] named_path(
        pointing,
    ) == encode_utf8(path) by {
        lemma_named_path(player.memory, path, pointing);
    }
}

/// A path that is in memory is found where A0 points to it.
pub proof fn lemma_named_path(memory: spec_fn(int) -> u8, path: Seq<char>, pointing: Player)
    requires
        !service::holds_nul(path),
        path_bytes(path).len() <= 0xffff,
        pointing.memory == stored(memory, pointing.a0 as int, path_bytes(path)),
    ensures
        named_path(pointing) == encode_utf8(path),
{
    let text = encode_utf8(path);
    let bytes = path_bytes(path);
    assert forall|i: int| 0 <= i < text.len() implies text[i] != 0 && #[trigger] text[i] == (
    pointing.memory)(pointing.a0 + i) by {
        assert(bytes[i] == text[i]);
        if text[i] == 0 {
            assert(text.contains(0));
        }
    }
    assert(bytes[text.len() as int] == 0);
    lemma_text_at(pointing.memory, pointing.a0 as int, text, 0x1_0000);
}

/// A chunk is written to the open file.
spec fn chunk_actions(
    trace: bool,
    line: Seq<char>,
    buffer: u32,
    chunk: Seq<u8>,
    mask: u32,
) -> Seq<Action> {
    seq![
        Action::SetRegisters { mask: REG_D1 | REG_A0, values: seq![chunk.len() as u32, buffer] },
        Action::Address(buffer),
        Action::Write(chunk),
    ] + call_actions(trace, line, OS9_I_WRITE, mask)
}

/// The record of that. The result is the mask that came back.
proof fn lemma_put_chunk(
    settings: Settings,
    path: Seq<char>,
    trace: bool,
    buffer: u32,
    chunk: Seq<u8>,
    log: Seq<Event>,
) -> (mask: u32)
    requires
        follows(log, service::put_chunk(settings, path, trace, buffer, chunk), Ok(())),
    ensures
        !carry(mask),
        consists(
            settings,
            chunk_actions(
                trace,
                sized_call_line("I$Write"@, path, chunk.len(), " bytes)"@),
                buffer,
                chunk,
                mask,
            ),
            log,
        ),
{
    reveal(service::put_chunk);
    let outcome = Ok::<(), Os9Failure>(());
    let line = sized_call_line("I$Write"@, path, chunk.len(), " bytes)"@);
    let values = seq![chunk.len() as u32, buffer];
    let whole = service::put_chunk(settings, path, trace, buffer, chunk);
    let (first, set, rest, next) = lemma_first(
        stub::set_registers(settings, REG_D1 | REG_A0, values),
        whole,
        log,
        outcome,
    );
    assert(set is Ok) by {
        if set is Err {
            assert(rest.len() == 0);
        }
    }
    let (second, addressed, rest, next) = lemma_first(
        stub::set_address(settings, buffer),
        next,
        rest,
        outcome,
    );
    assert(addressed is Ok) by {
        if addressed is Err {
            assert(rest.len() == 0);
        }
    }
    let (third, written, rest, next) = lemma_first(
        stub::write(settings, chunk),
        next,
        rest,
        outcome,
    );
    assert(written is Ok) by {
        if written is Err {
            assert(rest.len() == 0);
        }
    }
    let calling = service::plain_call(
        settings,
        trace,
        line,
        OS9_I_WRITE,
        "writing OS-9 destination file"@,
    );
    let (fourth, refused, rest, next) = lemma_first(calling, next, rest, outcome);
    assert(refused == Ok::<bool, Os9Failure>(false)) by {
        match refused {
            Ok(refused) => {
                if refused {
                    let reading = service::error_code(
                        settings,
                        "selecting OS-9 write error register"@,
                        "reading OS-9 write error register"@,
                    );
                    let (_, _, last, _) = lemma_first(reading, next, rest, outcome);
                    assert(last.len() == 0);
                }
            },
            Err(_) => {
                assert(rest.len() == 0);
            },
        }
    }
    assert(rest.len() == 0);
    let mask = lemma_plain_call(
        settings,
        trace,
        line,
        OS9_I_WRITE,
        "writing OS-9 destination file"@,
        fourth,
        false,
    );
    let one = Action::SetRegisters { mask: REG_D1 | REG_A0, values };
    let two = Action::Address(buffer);
    let three = Action::Write(chunk);
    let four = call_actions(trace, line, OS9_I_WRITE, mask);
    assert(performed(settings, one, first)) by {
        reveal(performed);
    }
    assert(performed(settings, two, second)) by {
        reveal(performed);
    }
    assert(performed(settings, three, third)) by {
        reveal(performed);
    }
    lemma_three(settings, one, first, two, second, three, third);
    lemma_consists_concat(
        settings,
        seq![one, two, three],
        first + second + third,
        four,
        fourth,
    );
    assert(first + second + third + fourth =~= log);
    mask
}

/// The file with this path is open, and nothing of it is left to read.
pub open spec fn at_end(player: Player, path: Seq<u8>) -> bool {
    &&& player.files.contains_key(path)
    &&& player.open == Some((path, player.files[path].len()))
    &&& player.listing is None
    &&& player.d0 == player.number
}

/// What a player does with a chunk: it is appended to the open file.
proof fn lemma_run_chunk(
    player: Player,
    trace: bool,
    line: Seq<char>,
    buffer: u32,
    chunk: Seq<u8>,
    mask: u32,
    path: Seq<u8>,
)
    requires
        chunk.len() <= 0xffff,
        !carry(mask),
        at_end(player, path),
    ensures
        ({
            let after = run(player, chunk_actions(trace, line, buffer, chunk, mask))->Some_0;
            &&& run(player, chunk_actions(trace, line, buffer, chunk, mask)) is Some
            &&& after.files == player.files.insert(path, player.files[path] + chunk)
            &&& at_end(after, path)
        }),
{
    let values = seq![chunk.len() as u32, buffer];
    let one = Action::SetRegisters { mask: REG_D1 | REG_A0, values };
    let two = Action::Address(buffer);
    let three = Action::Write(chunk);
    let front = seq![one, two, three];
    let four = call_actions(trace, line, OS9_I_WRITE, mask);
    lemma_run_concat(player, front, four);
    lemma_masks(values, player.d0);
    lemma_masks(values, player.d1);
    lemma_masks(values, player.a0);
    let set = step(player, one)->Some_0;
    let addressed = step(set, two)->Some_0;
    let written = step(addressed, three)->Some_0;
    assert(front.skip(1) =~= seq![two, three]);
    assert(front.skip(1).skip(1) =~= seq![three]);
    lemma_run_one(addressed, three);
    assert(run(set, front.skip(1)) == run(addressed, seq![three]));
    assert(run(player, front) == Some(written));
    lemma_run_call(written, trace, line, OS9_I_WRITE, mask);
    lemma_loaded(player.memory, buffer as int, chunk);
}

/// The actions append data to the open file.
spec fn appends(actions: Seq<Action>, data: Seq<u8>) -> bool {
    forall|player: Player, path: Seq<u8>|
        #![trigger run(player, actions), at_end(player, path)]
        at_end(player, path) ==> {
            let after = run(player, actions)->Some_0;
            &&& run(player, actions) is Some
            &&& after.files == player.files.insert(path, player.files[path] + data)
            &&& at_end(after, path)
        }
}

/// A chunk appends its data.
proof fn lemma_chunk_appends(
    trace: bool,
    line: Seq<char>,
    buffer: u32,
    chunk: Seq<u8>,
    mask: u32,
)
    requires
        chunk.len() <= 0xffff,
        !carry(mask),
    ensures
        appends(chunk_actions(trace, line, buffer, chunk, mask), chunk),
{
    let actions = chunk_actions(trace, line, buffer, chunk, mask);
    assert forall|player: Player, path: Seq<u8>|
        #![trigger run(player, actions), at_end(player, path)]
        at_end(player, path) implies {
        let after = run(player, actions)->Some_0;
        &&& run(player, actions) is Some
        &&& after.files == player.files.insert(path, player.files[path] + chunk)
        &&& at_end(after, path)
    } by {
        lemma_run_chunk(player, trace, line, buffer, chunk, mask, path);
    }
}

/// Actions that append, one after the other.
proof fn lemma_appends_more(
    first: Seq<Action>,
    chunk: Seq<u8>,
    second: Seq<Action>,
    left: Seq<u8>,
)
    requires
        appends(first, chunk),
        appends(second, left),
    ensures
        appends(first + second, chunk + left),
{
    let actions = first + second;
    assert forall|player: Player, path: Seq<u8>|
        #![trigger run(player, actions), at_end(player, path)]
        at_end(player, path) implies {
        let after = run(player, actions)->Some_0;
        &&& run(player, actions) is Some
        &&& after.files == player.files.insert(path, player.files[path] + (chunk + left))
        &&& at_end(after, path)
    } by {
        lemma_run_concat(player, first, second);
        let middle = run(player, first)->Some_0;
        assert(middle.files == player.files.insert(path, player.files[path] + chunk));
        assert(middle.files[path] == player.files[path] + chunk);
        let after = run(middle, second)->Some_0;
        assert(after.files == middle.files.insert(path, middle.files[path] + left));
        assert(player.files[path] + chunk + left =~= player.files[path] + (chunk + left));
        assert(after.files =~= player.files.insert(path, player.files[path] + (chunk + left)));
    }
}

/// No action appends nothing.
proof fn lemma_appends_nothing()
    ensures
        appends(Seq::empty(), Seq::empty()),
{
    let actions = Seq::<Action>::empty();
    assert forall|player: Player, path: Seq<u8>|
        #![trigger run(player, actions), at_end(player, path)]
        at_end(player, path) implies {
        let after = run(player, actions)->Some_0;
        &&& run(player, actions) is Some
        &&& after.files == player.files.insert(path, player.files[path] + Seq::<u8>::empty())
        &&& at_end(after, path)
    } by {
        assert(player.files[path] + Seq::<u8>::empty() =~= player.files[path]);
        assert(player.files.insert(path, player.files[path]) =~= player.files);
    }
}

/// Writing data to the open file in chunks appends it.
proof fn lemma_put_chunks(
    settings: Settings,
    path: Seq<char>,
    chunk_size: nat,
    trace: bool,
    buffer: u32,
    data: Seq<u8>,
    log: Seq<Event>,
) -> (actions: Seq<Action>)
    requires
        follows(
            log,
            service::put_chunks(settings, path, chunk_size, trace, buffer, data),
            Ok(()),
        ),
        1 <= chunk_size <= 0xffff,
    ensures
        consists(settings, actions, log),
        appends(actions, data),
    decreases data.len(),
{
    if data.len() == 0 {
        assert(log.len() == 0);
        assert(data =~= Seq::empty());
        lemma_consists_none(settings, log);
        lemma_appends_nothing();
        Seq::empty()
    } else {
        let outcome = Ok::<(), Os9Failure>(());
        let whole = service::put_chunks(settings, path, chunk_size, trace, buffer, data);
        let count = stub::chunk_length(data.len(), chunk_size);
        let chunk = data.take(count as int);
        let left = data.skip(count as int);
        let line = sized_call_line("I$Write"@, path, chunk.len(), " bytes)"@);
        let (first, put, rest, _) = lemma_first(
            service::put_chunk(settings, path, trace, buffer, chunk),
            whole,
            log,
            outcome,
        );
        assert(put is Ok) by {
            if put is Err {
                assert(rest.len() == 0);
            }
        }
        let mask = lemma_put_chunk(settings, path, trace, buffer, chunk, first);
        let actions = chunk_actions(trace, line, buffer, chunk, mask);
        let later = lemma_put_chunks(settings, path, chunk_size, trace, buffer, left, rest);
        lemma_consists_concat(settings, actions, first, later, rest);
        lemma_chunk_appends(trace, line, buffer, chunk, mask);
        lemma_appends_more(actions, chunk, later, left);
        assert(chunk + left =~= data);
        actions + later
    }
}

/// The record of closing a file after work that succeeded. The result is the
/// mask that came back.
proof fn lemma_close<A>(
    settings: Settings,
    path: Seq<char>,
    trace: bool,
    work: Result<A, Os9Failure>,
    closing: Seq<char>,
    log: Seq<Event>,
    outcome: A,
) -> (mask: u32)
    requires
        follows(log, service::close(settings, path, trace, work, closing), Ok(outcome)),
    ensures
        work == Ok::<A, Os9Failure>(outcome),
        consists(
            settings,
            call_actions(trace, call_line("I$Close"@, path), OS9_I_CLOSE, mask),
            log,
        ),
{
    reveal(service::close);
    let line = call_line("I$Close"@, path);
    let whole = service::close(settings, path, trace, work, closing);
    let (first, _, rest, next) = lemma_first(
        service::os9_trace(trace, line),
        whole,
        log,
        Ok(outcome),
    );
    lemma_trace(settings, trace, line, first);
    let (second, closed, last, _) = lemma_first(
        stub::os9_call(settings, OS9_I_CLOSE, 0),
        next,
        rest,
        Ok(outcome),
    );
    assert(last.len() == 0);
    assert(second =~= rest);
    assert(closed is Ok);
    let mask = closed->Ok_0;
    let action = Action::Call { call: OS9_I_CLOSE, mask };
    assert(performed(settings, action, rest)) by {
        reveal(performed);
    }
    lemma_consists_one(settings, action, rest);
    lemma_consists_concat(settings, notes(trace, line), first, seq![action], rest);
    mask
}

/// The actions make a new file with this path and this data, provided there is
/// none, and change no other file.
pub open spec fn creates(actions: Seq<Action>, path: Seq<u8>, data: Seq<u8>) -> bool {
    forall|player: Player|
        #![trigger run(player, actions)]
        {
            &&& run(player, actions) is Some <==> !player.files.contains_key(path)
            &&& run(player, actions) matches Some(after) ==> after.files == player.files.insert(
                path,
                data,
            )
        }
}

/// A file is created, written to, and closed.
proof fn lemma_creates(
    path: Seq<char>,
    actual: usize,
    path_buffer: u32,
    trace: bool,
    create_line: Seq<char>,
    create_mask: u32,
    size: nat,
    result: (usize, u32),
    written: Seq<Action>,
    data: Seq<u8>,
    close_line: Seq<char>,
    close_mask: u32,
)
    requires
        !service::holds_nul(path),
        path_bytes(path).len() <= 0xffff,
        !carry(create_mask),
        appends(written, data),
    ensures
        creates(
            path_actions(path, actual, path_buffer) + call_with_actions(
                trace,
                create_line,
                REG_D0 | REG_D1 | REG_A0,
                seq![OS9_FILE_READ_WRITE, OS9_OWNER_READ_WRITE, path_buffer],
                OS9_I_CREATE,
                create_mask,
            ) + seq![Action::Buffer { size, result }] + written + call_actions(
                trace,
                close_line,
                OS9_I_CLOSE,
                close_mask,
            ),
            encode_utf8(path),
            data,
        ),
{
    let values = seq![OS9_FILE_READ_WRITE, OS9_OWNER_READ_WRITE, path_buffer];
    let registers = REG_D0 | REG_D1 | REG_A0;
    let one = path_actions(path, actual, path_buffer);
    let two = call_with_actions(trace, create_line, registers, values, OS9_I_CREATE, create_mask);
    let three = seq![Action::Buffer { size, result }];
    let five = call_actions(trace, close_line, OS9_I_CLOSE, close_mask);
    let actions = one + two + three + written + five;
    let text = encode_utf8(path);
    assert forall|player: Player|
        #![trigger run(player, actions)]
        {
        &&& run(player, actions) is Some <==> !player.files.contains_key(text)
        &&& run(player, actions) matches Some(after) ==> after.files == player.files.insert(
            text,
            data,
        )
    } by {
        lemma_run_concat(player, one + two + three + written, five);
        lemma_run_concat(player, one + two + three, written);
        lemma_run_concat(player, one + two, three);
        lemma_run_concat(player, one, two);
        lemma_run_path(player, path, actual, path_buffer);
        let placed = run(player, one)->Some_0;
        lemma_run_call_with(
            placed,
            trace,
            create_line,
            registers,
            values,
            OS9_I_CREATE,
            create_mask,
        );
        lemma_masks(values, placed.d0);
        lemma_masks(values, placed.d1);
        lemma_masks(values, placed.a0);
        let set = step(placed, Action::SetRegisters { mask: registers, values })->Some_0;
        assert(named_path(set) == text);
        if !player.files.contains_key(text) {
            let created = run(placed, two)->Some_0;
            assert(created.files == player.files.insert(text, Seq::empty()));
            lemma_run_one(created, Action::Buffer { size, result });
            let allocated = run(created, three)->Some_0;
            assert(at_end(allocated, text));
            let filled = run(allocated, written)->Some_0;
            assert(run(allocated, written) is Some);
            assert(Seq::<u8>::empty() + data =~= data);
            assert(filled.files =~= player.files.insert(text, data));
            lemma_run_call(filled, trace, close_line, OS9_I_CLOSE, close_mask);
        }
    }
}

/// The actions of putting a file.
proof fn lemma_put_file(
    settings: Settings,
    data: Seq<u8>,
    path: Seq<char>,
    chunk_size: nat,
    trace: bool,
    log: Seq<Event>,
) -> (actions: Seq<Action>)
    requires
        follows(log, service::put_file(settings, data, path, chunk_size, trace), Ok(())),
    ensures
        consists(settings, actions, log),
        creates(actions, encode_utf8(path), data),
{
    let outcome = Ok::<(), Os9Failure>(());
    let whole = service::put_file(settings, data, path, chunk_size, trace);
    let placing = service::place_path(settings, path, service::destination_steps());
    let (path_log, placed, rest, next) = lemma_first(placing, whole, log, outcome);
    assert(placed is Ok) by {
        if placed is Err {
            assert(rest.len() == 0);
        }
    }
    let path_buffer = placed->Ok_0;
    let actual = lemma_place_path(
        settings,
        path,
        service::destination_steps(),
        path_log,
        path_buffer,
    );
    let create_line = call_line("I$Create"@, path);
    let values = seq![OS9_FILE_READ_WRITE, OS9_OWNER_READ_WRITE, path_buffer];
    let registers = REG_D0 | REG_D1 | REG_A0;
    let creating = service::call_with(
        settings,
        trace,
        create_line,
        registers,
        values,
        "setting registers for OS-9 file create"@,
        OS9_I_CREATE,
        "creating OS-9 destination file"@,
    );
    let (create_log, refused, rest, next) = lemma_first(creating, next, rest, outcome);
    assert(refused == Ok::<bool, Os9Failure>(false)) by {
        if refused is Err || refused->Ok_0 {
            assert(rest.len() == 0);
        }
    }
    let create_mask = lemma_call_with(
        settings,
        trace,
        create_line,
        registers,
        values,
        "setting registers for OS-9 file create"@,
        OS9_I_CREATE,
        "creating OS-9 destination file"@,
        create_log,
        false,
    );
    let allocating = stub::allocate_buffer(settings, chunk_size);
    let (buffer_log, allocated, rest, next) = lemma_first(allocating, next, rest, outcome);
    assert(allocated is Ok) by {
        if allocated is Err {
            assert(rest.len() == 0);
        }
    }
    let result = allocated->Ok_0;
    let three = Action::Buffer { size: chunk_size, result };
    assert(performed(settings, three, buffer_log)) by {
        reveal(performed);
    }
    lemma_consists_one(settings, three, buffer_log);
    let writing = service::put_chunks(settings, path, chunk_size, trace, result.1, data);
    let (data_log, work, close_log, _) = lemma_first(writing, next, rest, outcome);
    let close_line = call_line("I$Close"@, path);
    let close_mask = lemma_close(
        settings,
        path,
        trace,
        work,
        "closing OS-9 destination file"@,
        close_log,
        (),
    );
    let written = lemma_put_chunks(settings, path, chunk_size, trace, result.1, data, data_log);
    let one = path_actions(path, actual, path_buffer);
    let two = call_with_actions(trace, create_line, registers, values, OS9_I_CREATE, create_mask);
    let five = call_actions(trace, close_line, OS9_I_CLOSE, close_mask);
    lemma_consists_concat(settings, one, path_log, two, create_log);
    lemma_consists_concat(settings, one + two, path_log + create_log, seq![three], buffer_log);
    lemma_consists_concat(
        settings,
        one + two + seq![three],
        path_log + create_log + buffer_log,
        written,
        data_log,
    );
    lemma_consists_concat(
        settings,
        one + two + seq![three] + written,
        path_log + create_log + buffer_log + data_log,
        five,
        close_log,
    );
    assert(path_log + create_log + buffer_log + data_log + close_log =~= log);
    lemma_creates(
        path,
        actual,
        path_buffer,
        trace,
        create_line,
        create_mask,
        chunk_size,
        result,
        written,
        data,
        close_line,
        close_mask,
    );
    one + two + seq![three] + written + five
}

/// A file that was put without an error is on the player: there was none of that
/// name before, it holds exactly the data, and no other file has changed. Every
/// player that does everything right and has no such file can be put it.
pub proof fn law_put_creates_the_file(
    settings: Settings,
    data: Seq<u8>,
    path: Seq<char>,
    chunk_size: nat,
    trace: bool,
    log: Seq<Event>,
)
    requires
        follows(log, service::put_file(settings, data, path, chunk_size, trace), Ok(())),
    ensures
        exists|actions: Seq<Action>| #[trigger]
            consists(settings, actions, log) && creates(actions, encode_utf8(path), data),
{
    let actions = lemma_put_file(settings, data, path, chunk_size, trace, log);
}

/// What a read left in a buffer is fetched.
spec fn fetch_actions(buffer: u32, registers: Seq<u8>, bytes: Seq<u8>) -> Seq<Action> {
    seq![Action::Select(REG_D0 | REG_D1), Action::Read { size: 8, data: registers }] + (
    if bytes.len() == 0 {
        Seq::empty()
    } else {
        seq![Action::Address(buffer), Action::Read { size: bytes.len(), data: bytes }]
    })
}

/// The record of two actions.
proof fn lemma_two(
    settings: Settings,
    one: Action,
    first: Seq<Event>,
    two: Action,
    second: Seq<Event>,
)
    requires
        performed(settings, one, first),
        performed(settings, two, second),
    ensures
        consists(settings, seq![one, two], first + second),
{
    lemma_consists_one(settings, one, first);
    lemma_consists_one(settings, two, second);
    lemma_consists_concat(settings, seq![one], first, seq![two], second);
    assert(seq![one] + seq![two] =~= seq![one, two]);
}

/// What a player does in two actions.
proof fn lemma_run_two(player: Player, one: Action, two: Action)
    ensures
        run(player, seq![one, two]) == match step(player, one) {
            Some(next) => step(next, two),
            None => None,
        },
{
    lemma_run_concat(player, seq![one], seq![two]);
    lemma_run_one(player, one);
    if let Some(next) = step(player, one) {
        lemma_run_one(next, two);
    }
    assert(seq![one] + seq![two] =~= seq![one, two]);
}

/// The record of fetching. The result is what the registers were.
proof fn lemma_fetch(
    settings: Settings,
    buffer: u32,
    limit: nat,
    selecting: Seq<char>,
    reading: Seq<char>,
    addressing: Seq<char>,
    fetching: Seq<char>,
    log: Seq<Event>,
    bytes: Seq<u8>,
) -> (registers: Seq<u8>)
    requires
        follows(
            log,
            service::fetch(settings, buffer, limit, selecting, reading, addressing, fetching),
            Ok(bytes),
        ),
    ensures
        consists(settings, fetch_actions(buffer, registers, bytes), log),
        ({
            let valid = value32(registers.skip(4)) % 0x1_0000;
            bytes.len() == if valid == 0 || valid > limit {
                0
            } else {
                valid as nat
            }
        }),
{
    reveal(service::fetch);
    let outcome = Ok::<Seq<u8>, Os9Failure>(bytes);
    let whole = service::fetch(
        settings,
        buffer,
        limit,
        selecting,
        reading,
        addressing,
        fetching,
    );
    let (first, selected, rest, next) = lemma_first(
        stub::select_registers(settings, REG_D0 | REG_D1),
        whole,
        log,
        outcome,
    );
    assert(selected is Ok) by {
        if selected is Err {
            assert(rest.len() == 0);
        }
    }
    let (second, shown, rest, next) = lemma_first(stub::read(settings, 8), next, rest, outcome);
    assert(shown is Ok) by {
        if shown is Err {
            assert(rest.len() == 0);
        }
    }
    let registers = shown->Ok_0;
    let one = Action::Select(REG_D0 | REG_D1);
    let two = Action::Read { size: 8, data: registers };
    assert(performed(settings, one, first)) by {
        reveal(performed);
    }
    assert(performed(settings, two, second)) by {
        reveal(performed);
    }
    lemma_two(settings, one, first, two, second);
    let valid = (value32(registers.skip(4)) % 0x1_0000) as nat;
    if valid == 0 || valid > limit {
        assert(rest.len() == 0);
        assert(seq![one, two] + Seq::<Action>::empty() =~= seq![one, two]);
        assert(first + second =~= log);
    } else {
        let (third, addressed, rest, next) = lemma_first(
            stub::set_address(settings, buffer),
            next,
            rest,
            outcome,
        );
        assert(addressed is Ok) by {
            if addressed is Err {
                assert(rest.len() == 0);
            }
        }
        let (fourth, read, last, _) = lemma_first(
            stub::read(settings, valid),
            next,
            rest,
            outcome,
        );
        assert(last.len() == 0);
        assert(read == Ok::<Seq<u8>, Failure>(bytes));
        law_data_comes_from_the_player(settings, valid, fourth, read);
        let three = Action::Address(buffer);
        let four = Action::Read { size: valid, data: bytes };
        assert(performed(settings, three, third)) by {
            reveal(performed);
        }
        assert(performed(settings, four, fourth)) by {
            reveal(performed);
        }
        lemma_two(settings, three, third, four, fourth);
        lemma_consists_concat(
            settings,
            seq![one, two],
            first + second,
            seq![three, four],
            third + fourth,
        );
        assert(first + second + (third + fourth) =~= log);
    }
    registers
}

/// A file is open, and the registers are set for the next read of it.
pub open spec fn ready(player: Player, buffer: u32, chunk_size: nat) -> bool {
    &&& player.open matches Some((path, position)) && player.files.contains_key(path) && position
        <= player.files[path].len()
    &&& player.listing is None
    &&& player.d0 == player.number
    &&& player.a0 == buffer
    &&& player.d1 == chunk_size
}

/// The actions read the rest of the open file.
spec fn yields(actions: Seq<Action>, buffer: u32, chunk_size: nat, data: Seq<u8>) -> bool {
    forall|player: Player|
        #![trigger run(player, actions)]
        ready(player, buffer, chunk_size) && run(player, actions) is Some ==> {
            let (path, position) = player.open->Some_0;
            &&& data == player.files[path].skip(position as int)
            &&& run(player, actions)->Some_0.files == player.files
        }
}

/// A read that fails does so at the end of the file.
proof fn lemma_yields_nothing(
    trace: bool,
    line: Seq<char>,
    mask: u32,
    buffer: u32,
    chunk_size: nat,
)
    requires
        carry(mask),
    ensures
        yields(
            call_actions(trace, line, OS9_I_READ, mask),
            buffer,
            chunk_size,
            Seq::empty(),
        ),
{
    let actions = call_actions(trace, line, OS9_I_READ, mask);
    assert forall|player: Player|
        #![trigger run(player, actions)]
        ready(player, buffer, chunk_size) && run(player, actions) is Some implies {
        let (path, position) = player.open->Some_0;
        &&& Seq::<u8>::empty() == player.files[path].skip(position as int)
        &&& run(player, actions)->Some_0.files == player.files
    } by {
        lemma_run_call(player, trace, line, OS9_I_READ, mask);
        let (path, position) = player.open->Some_0;
        assert(player.files[path].skip(position as int) =~= Seq::empty());
    }
}

/// What a player does in one read that brings something, up to the fetching.
proof fn lemma_run_read(
    player: Player,
    trace: bool,
    line: Seq<char>,
    mask: u32,
    buffer: u32,
    chunk_size: nat,
    registers: Seq<u8>,
    bytes: Seq<u8>,
)
    requires
        !carry(mask),
        1 <= chunk_size <= 0xffff,
        ready(player, buffer, chunk_size),
        ({
            let valid = value32(registers.skip(4)) % 0x1_0000;
            bytes.len() == if valid == 0 || valid > chunk_size {
                0
            } else {
                valid as nat
            }
        }),
        run(
            player,
            call_actions(trace, line, OS9_I_READ, mask) + fetch_actions(buffer, registers, bytes),
        ) is Some,
    ensures
        ({
            let after = run(
                player,
                call_actions(trace, line, OS9_I_READ, mask) + fetch_actions(
                    buffer,
                    registers,
                    bytes,
                ),
            )->Some_0;
            let (path, position) = player.open->Some_0;
            let count = bytes.len();
            &&& count > 0
            &&& position + count <= player.files[path].len()
            &&& bytes == player.files[path].subrange(position as int, (position + count) as int)
            &&& after.files == player.files
            &&& after.open == Some((path, position + count))
            &&& after.listing is None
            &&& after.d0 == after.number
            &&& after.a0 == buffer
        }),
{
    let (path, position) = player.open->Some_0;
    let file = player.files[path];
    let reading = call_actions(trace, line, OS9_I_READ, mask);
    let fetching = fetch_actions(buffer, registers, bytes);
    lemma_run_concat(player, reading, fetching);
    lemma_run_call(player, trace, line, OS9_I_READ, mask);
    let read = called(player, OS9_I_READ, false)->Some_0;
    let left = bytes_left(player);
    let count = if left < player.d1 {
        left
    } else {
        player.d1 as int
    };
    let data = file.subrange(position as int, position + count);
    assert(read.d1 == count && 1 <= count <= 0xffff);
    let select = Action::Select(REG_D0 | REG_D1);
    let show = Action::Read { size: 8, data: registers };
    lemma_masks(seq![], 0);
    lemma_run_two(read, select, show);
    let more = if bytes.len() == 0 {
        Seq::empty()
    } else {
        seq![Action::Address(buffer), Action::Read { size: bytes.len(), data: bytes }]
    };
    lemma_run_concat(read, seq![select, show], more);
    let selected = step(read, select)->Some_0;
    assert(registers == shown_registers(selected, REG_D0 | REG_D1));
    assert(registers =~= be32(read.d0) + be32(read.d1));
    assert(registers.skip(4) =~= be32(read.d1));
    law_numbers_round_trip(read.d1);
    assert(bytes.len() == count);
    let shown = run(read, seq![select, show])->Some_0;
    lemma_run_two(shown, Action::Address(buffer), Action::Read { size: bytes.len(), data: bytes });
    assert(bytes == loaded(read.memory, buffer as int, bytes.len()));
    lemma_loaded(player.memory, buffer as int, data);
    assert(data.len() == count);
    assert(bytes == data);
}

/// A read that brings something, and then the rest of the file.
proof fn lemma_yields_more(
    trace: bool,
    line: Seq<char>,
    mask: u32,
    buffer: u32,
    chunk_size: nat,
    registers: Seq<u8>,
    bytes: Seq<u8>,
    later: Seq<Action>,
    rest: Seq<u8>,
)
    requires
        !carry(mask),
        1 <= chunk_size <= 0xffff,
        bytes.len() > 0,
        ({
            let valid = value32(registers.skip(4)) % 0x1_0000;
            bytes.len() == if valid == 0 || valid > chunk_size {
                0
            } else {
                valid as nat
            }
        }),
        yields(later, buffer, chunk_size, rest),
    ensures
        yields(
            call_actions(trace, line, OS9_I_READ, mask) + fetch_actions(buffer, registers, bytes)
                + seq![
                Action::SetRegisters { mask: REG_D1, values: seq![chunk_size as u32] },
            ] + later,
            buffer,
            chunk_size,
            bytes + rest,
        ),
{
    let one = call_actions(trace, line, OS9_I_READ, mask) + fetch_actions(
        buffer,
        registers,
        bytes,
    );
    let values = seq![chunk_size as u32];
    let set = Action::SetRegisters { mask: REG_D1, values };
    let actions = one + seq![set] + later;
    assert forall|player: Player|
        #![trigger run(player, actions)]
        ready(player, buffer, chunk_size) && run(player, actions) is Some implies {
        let (path, position) = player.open->Some_0;
        &&& bytes + rest == player.files[path].skip(position as int)
        &&& run(player, actions)->Some_0.files == player.files
    } by {
        lemma_run_concat(player, one + seq![set], later);
        lemma_run_concat(player, one, seq![set]);
        lemma_run_read(player, trace, line, mask, buffer, chunk_size, registers, bytes);
        let read = run(player, one)->Some_0;
        lemma_run_one(read, set);
        lemma_masks(values, read.d0);
        lemma_masks(values, read.d1);
        lemma_masks(values, read.a0);
        let next = step(read, set)->Some_0;
        assert(ready(next, buffer, chunk_size));
        let (path, position) = player.open->Some_0;
        let file = player.files[path];
        assert(run(next, later) is Some);
        assert(rest == file.skip((position + bytes.len()) as int));
        assert(bytes + rest =~= file.skip(position as int));
    }
}

/// A read that claims to bring something, but does not, is not one of a player
/// that does everything right.
proof fn lemma_yields_never(
    trace: bool,
    line: Seq<char>,
    mask: u32,
    buffer: u32,
    chunk_size: nat,
    registers: Seq<u8>,
    data: Seq<u8>,
)
    requires
        !carry(mask),
        1 <= chunk_size <= 0xffff,
        ({
            let valid = value32(registers.skip(4)) % 0x1_0000;
            valid == 0 || valid > chunk_size
        }),
    ensures
        yields(
            call_actions(trace, line, OS9_I_READ, mask) + fetch_actions(
                buffer,
                registers,
                Seq::empty(),
            ),
            buffer,
            chunk_size,
            data,
        ),
{
    let actions = call_actions(trace, line, OS9_I_READ, mask) + fetch_actions(
        buffer,
        registers,
        Seq::empty(),
    );
    assert forall|player: Player|
        #![trigger run(player, actions)]
        ready(player, buffer, chunk_size) && run(player, actions) is Some implies {
        let (path, position) = player.open->Some_0;
        &&& data == player.files[path].skip(position as int)
        &&& run(player, actions)->Some_0.files == player.files
    } by {
        lemma_run_read(player, trace, line, mask, buffer, chunk_size, registers, Seq::empty());
    }
}

/// Reading the rest of the open file, after `before`.
proof fn lemma_file_data(
    settings: Settings,
    path: Seq<char>,
    chunk_size: nat,
    trace: bool,
    buffer: u32,
    before: Seq<u8>,
    log: Seq<Event>,
    all: Seq<u8>,
) -> (actions: Seq<Action>)
    requires
        follows(
            log,
            service::file_data(settings, path, chunk_size, trace, buffer, before),
            Ok(all),
        ),
        1 <= chunk_size <= 0xffff,
    ensures
        consists(settings, actions, log),
        all.len() >= before.len(),
        all.take(before.len() as int) == before,
        yields(actions, buffer, chunk_size, all.skip(before.len() as int)),
    decreases usize::MAX - before.len(),
{
    let outcome = Ok::<Seq<u8>, Os9Failure>(all);
    let line = sized_call_line("I$Read"@, path, chunk_size, " bytes requested)"@);
    let whole = service::file_data(settings, path, chunk_size, trace, buffer, before);
    let calling = service::plain_call(
        settings,
        trace,
        line,
        OS9_I_READ,
        "reading OS-9 source file"@,
    );
    let (first, at_end, rest, next) = lemma_first(calling, whole, log, outcome);
    assert(at_end is Ok) by {
        if at_end is Err {
            assert(rest.len() == 0);
        }
    }
    let mask = lemma_plain_call(
        settings,
        trace,
        line,
        OS9_I_READ,
        "reading OS-9 source file"@,
        first,
        at_end->Ok_0,
    );
    let one = call_actions(trace, line, OS9_I_READ, mask);
    if at_end->Ok_0 {
        assert(rest.len() == 0);
        assert(first =~= log);
        assert(all == before);
        assert(all.take(before.len() as int) =~= before);
        assert(all.skip(before.len() as int) =~= Seq::empty());
        lemma_yields_nothing(trace, line, mask, buffer, chunk_size);
        one
    } else {
        let fetching = service::fetch(
            settings,
            buffer,
            chunk_size,
            "selecting OS-9 file result registers"@,
            "reading OS-9 file result registers"@,
            "selecting OS-9 file data buffer"@,
            "reading OS-9 file data from Stub"@,
        );
        let (second, fetched, rest, next) = lemma_first(fetching, next, rest, outcome);
        assert(fetched is Ok) by {
            if fetched is Err {
                assert(rest.len() == 0);
            }
        }
        let bytes = fetched->Ok_0;
        let registers = lemma_fetch(
            settings,
            buffer,
            chunk_size,
            "selecting OS-9 file result registers"@,
            "reading OS-9 file result registers"@,
            "selecting OS-9 file data buffer"@,
            "reading OS-9 file data from Stub"@,
            second,
            bytes,
        );
        let two = fetch_actions(buffer, registers, bytes);
        lemma_consists_concat(settings, one, first, two, second);
        if bytes.len() == 0 {
            assert(rest.len() == 0);
            assert(first + second =~= log);
            assert(bytes =~= Seq::empty());
            assert(all == before);
            assert(all.take(before.len() as int) =~= before);
            lemma_yields_never(
                trace,
                line,
                mask,
                buffer,
                chunk_size,
                registers,
                all.skip(before.len() as int),
            );
            one + two
        } else {
            assert(before.len() + bytes.len() <= usize::MAX) by {
                if before.len() + bytes.len() > usize::MAX {
                    assert(rest.len() == 0);
                }
            }
            let values = seq![chunk_size as u32];
            let (third, set, last, _) = lemma_first(
                stub::set_registers(settings, REG_D1, values),
                next,
                rest,
                outcome,
            );
            assert(set is Ok) by {
                if set is Err {
                    assert(last.len() == 0);
                }
            }
            let three = Action::SetRegisters { mask: REG_D1, values };
            assert(performed(settings, three, third)) by {
                reveal(performed);
            }
            lemma_consists_one(settings, three, third);
            let longer = before + bytes;
            let later = lemma_file_data(
                settings,
                path,
                chunk_size,
                trace,
                buffer,
                longer,
                last,
                all,
            );
            let remaining = all.skip(longer.len() as int);
            lemma_consists_concat(settings, one + two, first + second, seq![three], third);
            lemma_consists_concat(
                settings,
                one + two + seq![three],
                first + second + third,
                later,
                last,
            );
            assert(first + second + third + last =~= log);
            lemma_yields_more(
                trace,
                line,
                mask,
                buffer,
                chunk_size,
                registers,
                bytes,
                later,
                remaining,
            );
            assert(all.take(before.len() as int) =~= all.take(longer.len() as int).take(
                before.len() as int,
            ));
            assert(longer.take(before.len() as int) =~= before);
            assert(all.skip(before.len() as int) =~= bytes + remaining) by {
                assert(all.take(longer.len() as int).skip(before.len() as int) =~= bytes);
            }
            one + two + seq![three] + later
        }
    }
}

/// The actions get a file with this path: what they return is what it holds, and
/// no file changes.
pub open spec fn obtains(actions: Seq<Action>, path: Seq<u8>, data: Seq<u8>) -> bool {
    forall|player: Player|
        #![trigger run(player, actions)]
        run(player, actions) is Some ==> {
            &&& player.files.contains_key(path)
            &&& player.files[path] == data
            &&& run(player, actions)->Some_0.files == player.files
        }
}

/// A file is opened, read, and closed.
proof fn lemma_obtains(
    path: Seq<char>,
    actual: usize,
    path_buffer: u32,
    trace: bool,
    open_line: Seq<char>,
    open_mask: u32,
    size: nat,
    result: (usize, u32),
    reading: Seq<Action>,
    data: Seq<u8>,
    close_line: Seq<char>,
    close_mask: u32,
)
    requires
        !service::holds_nul(path),
        path_bytes(path).len() <= 0xffff,
        !carry(open_mask),
        1 <= size <= 0xffff,
        yields(reading, result.1, size, data),
    ensures
        obtains(
            path_actions(path, actual, path_buffer) + call_with_actions(
                trace,
                open_line,
                REG_D0 | REG_A0,
                seq![OS9_FILE_READ, path_buffer],
                OS9_I_OPEN,
                open_mask,
            ) + seq![
                Action::Buffer { size, result },
                Action::SetRegisters {
                    mask: REG_D1 | REG_A0,
                    values: seq![size as u32, result.1],
                },
            ] + reading + call_actions(trace, close_line, OS9_I_CLOSE, close_mask),
            encode_utf8(path),
            data,
        ),
{
    let values = seq![OS9_FILE_READ, path_buffer];
    let registers = REG_D0 | REG_A0;
    let one = path_actions(path, actual, path_buffer);
    let two = call_with_actions(trace, open_line, registers, values, OS9_I_OPEN, open_mask);
    let buffer = Action::Buffer { size, result };
    let limits = seq![size as u32, result.1];
    let set_limits = Action::SetRegisters { mask: REG_D1 | REG_A0, values: limits };
    let three = seq![buffer, set_limits];
    let five = call_actions(trace, close_line, OS9_I_CLOSE, close_mask);
    let actions = one + two + three + reading + five;
    let text = encode_utf8(path);
    assert forall|player: Player|
        #![trigger run(player, actions)]
        run(player, actions) is Some implies {
        &&& player.files.contains_key(text)
        &&& player.files[text] == data
        &&& run(player, actions)->Some_0.files == player.files
    } by {
        lemma_run_concat(player, one + two + three + reading, five);
        lemma_run_concat(player, one + two + three, reading);
        lemma_run_concat(player, one + two, three);
        lemma_run_concat(player, one, two);
        lemma_run_path(player, path, actual, path_buffer);
        let placed = run(player, one)->Some_0;
        lemma_run_call_with(placed, trace, open_line, registers, values, OS9_I_OPEN, open_mask);
        lemma_masks(values, placed.a0);
        lemma_masks(values, placed.d0);
        let set = step(placed, Action::SetRegisters { mask: registers, values })->Some_0;
        assert(named_path(set) == text);
        assert(!names_directory(set));
        let opened = run(placed, two)->Some_0;
        assert(opened.files == player.files && opened.open == Some((text, 0nat)));
        lemma_run_two(opened, buffer, set_limits);
        let allocated = step(opened, buffer)->Some_0;
        lemma_masks(limits, allocated.d0);
        lemma_masks(limits, allocated.d1);
        lemma_masks(limits, allocated.a0);
        let limited = run(opened, three)->Some_0;
        assert(ready(limited, result.1, size));
        assert(run(limited, reading) is Some);
        assert(player.files[text].skip(0) =~= player.files[text]);
        let read = run(limited, reading)->Some_0;
        lemma_run_call(read, trace, close_line, OS9_I_CLOSE, close_mask);
    }
}

/// The actions of getting a file.
proof fn lemma_get_file(
    settings: Settings,
    path: Seq<char>,
    chunk_size: nat,
    trace: bool,
    log: Seq<Event>,
    data: Seq<u8>,
) -> (actions: Seq<Action>)
    requires
        follows(log, service::get_file(settings, path, chunk_size, trace), Ok(data)),
    ensures
        consists(settings, actions, log),
        obtains(actions, encode_utf8(path), data),
{
    let outcome = Ok::<Seq<u8>, Os9Failure>(data);
    let whole = service::get_file(settings, path, chunk_size, trace);
    let placing = service::place_path(settings, path, service::source_steps());
    let (path_log, placed, rest, next) = lemma_first(placing, whole, log, outcome);
    assert(placed is Ok) by {
        if placed is Err {
            assert(rest.len() == 0);
        }
    }
    let path_buffer = placed->Ok_0;
    let actual = lemma_place_path(
        settings,
        path,
        service::source_steps(),
        path_log,
        path_buffer,
    );
    let open_line = call_line("I$Open"@, path) + " (read)"@;
    let values = seq![OS9_FILE_READ, path_buffer];
    let registers = REG_D0 | REG_A0;
    let opening = service::call_with(
        settings,
        trace,
        open_line,
        registers,
        values,
        "setting registers for OS-9 file open"@,
        OS9_I_OPEN,
        "opening OS-9 source file"@,
    );
    let (open_log, refused, rest, next) = lemma_first(opening, next, rest, outcome);
    assert(refused == Ok::<bool, Os9Failure>(false)) by {
        if refused is Err || refused->Ok_0 {
            assert(rest.len() == 0);
        }
    }
    let open_mask = lemma_call_with(
        settings,
        trace,
        open_line,
        registers,
        values,
        "setting registers for OS-9 file open"@,
        OS9_I_OPEN,
        "opening OS-9 source file"@,
        open_log,
        false,
    );
    let allocating = stub::allocate_buffer(settings, chunk_size);
    let (buffer_log, allocated, rest, next) = lemma_first(allocating, next, rest, outcome);
    assert(allocated is Ok) by {
        if allocated is Err {
            assert(rest.len() == 0);
        }
    }
    let result = allocated->Ok_0;
    let reading = service::read_open_file(settings, path, chunk_size, trace, result.1);
    let (read_log, work, close_log, _) = lemma_first(reading, next, rest, outcome);
    let close_line = call_line("I$Close"@, path);
    let close_mask = lemma_close(
        settings,
        path,
        trace,
        work,
        "closing OS-9 source file"@,
        close_log,
        data,
    );
    let (set_log, data_log) = lemma_read_open_file(
        settings,
        path,
        chunk_size,
        trace,
        result.1,
        read_log,
        data,
    );
    let read = lemma_file_data(
        settings,
        path,
        chunk_size,
        trace,
        result.1,
        seq![],
        data_log,
        data,
    );
    assert(data.skip(0) =~= data);
    let limits = seq![chunk_size as u32, result.1];
    let buffer = Action::Buffer { size: chunk_size, result };
    let set_limits = Action::SetRegisters { mask: REG_D1 | REG_A0, values: limits };
    assert(performed(settings, buffer, buffer_log)) by {
        reveal(performed);
    }
    lemma_two(settings, buffer, buffer_log, set_limits, set_log);
    let one = path_actions(path, actual, path_buffer);
    let two = call_with_actions(trace, open_line, registers, values, OS9_I_OPEN, open_mask);
    let three = seq![buffer, set_limits];
    let five = call_actions(trace, close_line, OS9_I_CLOSE, close_mask);
    lemma_consists_concat(settings, one, path_log, two, open_log);
    lemma_consists_concat(settings, one + two, path_log + open_log, three, buffer_log + set_log);
    lemma_consists_concat(
        settings,
        one + two + three,
        path_log + open_log + (buffer_log + set_log),
        read,
        data_log,
    );
    lemma_consists_concat(
        settings,
        one + two + three + read,
        path_log + open_log + (buffer_log + set_log) + data_log,
        five,
        close_log,
    );
    assert(path_log + open_log + (buffer_log + set_log) + data_log + close_log =~= log);
    lemma_obtains(
        path,
        actual,
        path_buffer,
        trace,
        open_line,
        open_mask,
        chunk_size,
        result,
        read,
        data,
        close_line,
        close_mask,
    );
    one + two + three + read + five
}

/// The two parts of reading an open file: the registers are set, then the data
/// is read.
proof fn lemma_read_open_file(
    settings: Settings,
    path: Seq<char>,
    chunk_size: nat,
    trace: bool,
    buffer: u32,
    log: Seq<Event>,
    data: Seq<u8>,
) -> (parts: (Seq<Event>, Seq<Event>))
    requires
        follows(
            log,
            service::read_open_file(settings, path, chunk_size, trace, buffer),
            Ok(data),
        ),
    ensures
        log == parts.0 + parts.1,
        performed(
            settings,
            Action::SetRegisters {
                mask: REG_D1 | REG_A0,
                values: seq![chunk_size as u32, buffer],
            },
            parts.0,
        ),
        follows(
            parts.1,
            service::file_data(settings, path, chunk_size, trace, buffer, seq![]),
            Ok(data),
        ),
{
    reveal(service::read_open_file);
    reveal(performed);
    let outcome = Ok::<Seq<u8>, Os9Failure>(data);
    let whole = service::read_open_file(settings, path, chunk_size, trace, buffer);
    let (first, set, rest, _) = lemma_first(
        stub::set_registers(settings, REG_D1 | REG_A0, seq![chunk_size as u32, buffer]),
        whole,
        log,
        outcome,
    );
    assert(set is Ok) by {
        if set is Err {
            assert(rest.len() == 0);
        }
    }
    (first, rest)
}

/// A file that was got without an error is what the player has under that path,
/// all of it, and no file has changed.
pub proof fn law_get_returns_the_file(
    settings: Settings,
    path: Seq<char>,
    chunk_size: nat,
    trace: bool,
    log: Seq<Event>,
    data: Seq<u8>,
)
    requires
        follows(log, service::get_file(settings, path, chunk_size, trace), Ok(data)),
    ensures
        exists|actions: Seq<Action>| #[trigger]
            consists(settings, actions, log) && obtains(actions, encode_utf8(path), data),
{
    let actions = lemma_get_file(settings, path, chunk_size, trace, log, data);
}

/// A file that was put is got again, byte for byte, whatever the sizes of the
/// chunks and whatever the line did to the two transfers, as long as both came
/// to a good end. Without errors of the line they do:
/// [`law_put_files_are_got_again`](crate::world_files::law_put_files_are_got_again).
pub proof fn law_files_round_trip(
    settings: Settings,
    path: Seq<char>,
    data: Seq<u8>,
    put_chunk: nat,
    get_chunk: nat,
    trace: bool,
    put_log: Seq<Event>,
    get_log: Seq<Event>,
    got: Seq<u8>,
)
    requires
        follows(put_log, service::put_file(settings, data, path, put_chunk, trace), Ok(())),
        follows(get_log, service::get_file(settings, path, get_chunk, trace), Ok(got)),
    ensures
        exists|first: Seq<Action>, second: Seq<Action>| #[trigger]
            consists(settings, first, put_log) && #[trigger] consists(settings, second, get_log)
                && forall|player: Player|
                #![trigger run(player, first + second)]
                run(player, first + second) is Some ==> got == data,
{
    let first = lemma_put_file(settings, data, path, put_chunk, trace, put_log);
    let second = lemma_get_file(settings, path, get_chunk, trace, get_log, got);
    assert forall|player: Player|
        #![trigger run(player, first + second)]
        run(player, first + second) is Some implies got == data by {
        lemma_run_concat(player, first, second);
        let middle = run(player, first)->Some_0;
        assert(run(middle, second) is Some);
        assert(middle.files[encode_utf8(path)] == data);
    }
}

/// The actions delete a file, provided there is one, and change no other.
pub open spec fn removes(actions: Seq<Action>, path: Seq<u8>) -> bool {
    forall|player: Player|
        #![trigger run(player, actions)]
        {
            &&& run(player, actions) is Some <==> player.files.contains_key(path)
            &&& run(player, actions) matches Some(after) ==> after.files == player.files.remove(
                path,
            )
        }
}

/// The actions of deleting a file.
proof fn lemma_delete_file(
    settings: Settings,
    path: Seq<char>,
    trace: bool,
    log: Seq<Event>,
) -> (actions: Seq<Action>)
    requires
        follows(log, service::delete_file(settings, path, trace), Ok(())),
    ensures
        consists(settings, actions, log),
        removes(actions, encode_utf8(path)),
{
    let outcome = Ok::<(), Os9Failure>(());
    let whole = service::delete_file(settings, path, trace);
    let placing = service::place_path(settings, path, service::deletion_steps());
    let (path_log, placed, rest, next) = lemma_first(placing, whole, log, outcome);
    assert(placed is Ok) by {
        if placed is Err {
            assert(rest.len() == 0);
        }
    }
    let path_buffer = placed->Ok_0;
    let actual = lemma_place_path(
        settings,
        path,
        service::deletion_steps(),
        path_log,
        path_buffer,
    );
    let line = call_line("I$Delete"@, path);
    let values = seq![OS9_FILE_READ_WRITE, path_buffer];
    let registers = REG_D0 | REG_A0;
    let deleting = service::call_with(
        settings,
        trace,
        line,
        registers,
        values,
        "setting registers for OS-9 file delete"@,
        OS9_I_DELETE,
        "deleting OS-9 file"@,
    );
    let (delete_log, refused, rest, next) = lemma_first(deleting, next, rest, outcome);
    assert(refused == Ok::<bool, Os9Failure>(false)) by {
        match refused {
            Ok(refused) => {
                if refused {
                    let reading = service::error_code(
                        settings,
                        "selecting OS-9 delete error register"@,
                        "reading OS-9 delete error register"@,
                    );
                    let (_, _, last, _) = lemma_first(reading, next, rest, outcome);
                    assert(last.len() == 0);
                }
            },
            Err(_) => {
                assert(rest.len() == 0);
            },
        }
    }
    assert(rest.len() == 0);
    let mask = lemma_call_with(
        settings,
        trace,
        line,
        registers,
        values,
        "setting registers for OS-9 file delete"@,
        OS9_I_DELETE,
        "deleting OS-9 file"@,
        delete_log,
        false,
    );
    let one = path_actions(path, actual, path_buffer);
    let two = call_with_actions(trace, line, registers, values, OS9_I_DELETE, mask);
    lemma_consists_concat(settings, one, path_log, two, delete_log);
    assert(path_log + delete_log =~= log);
    let text = encode_utf8(path);
    let actions = one + two;
    assert forall|player: Player|
        #![trigger run(player, actions)]
        {
        &&& run(player, actions) is Some <==> player.files.contains_key(text)
        &&& run(player, actions) matches Some(after) ==> after.files == player.files.remove(text)
    } by {
        lemma_run_concat(player, one, two);
        lemma_run_path(player, path, actual, path_buffer);
        let placed = run(player, one)->Some_0;
        lemma_run_call_with(placed, trace, line, registers, values, OS9_I_DELETE, mask);
        lemma_masks(values, placed.d0);
        lemma_masks(values, placed.a0);
        let set = step(placed, Action::SetRegisters { mask: registers, values })->Some_0;
        assert(named_path(set) == text);
    }
    actions
}

/// A file that was deleted without an error was there, and is gone; no other
/// file has changed.
pub proof fn law_delete_removes_the_file(
    settings: Settings,
    path: Seq<char>,
    trace: bool,
    log: Seq<Event>,
)
    requires
        follows(log, service::delete_file(settings, path, trace), Ok(())),
    ensures
        exists|actions: Seq<Action>| #[trigger]
            consists(settings, actions, log) && removes(actions, encode_utf8(path)),
{
    let actions = lemma_delete_file(settings, path, trace, log);
}

/// A file that is put, got and deleted comes back byte for byte, and leaves no
/// trace: the player has the files that it had before.
pub proof fn law_put_get_delete_leaves_no_trace(
    settings: Settings,
    path: Seq<char>,
    data: Seq<u8>,
    chunk_size: nat,
    trace: bool,
    put_log: Seq<Event>,
    get_log: Seq<Event>,
    delete_log: Seq<Event>,
    got: Seq<u8>,
)
    requires
        follows(put_log, service::put_file(settings, data, path, chunk_size, trace), Ok(())),
        follows(get_log, service::get_file(settings, path, chunk_size, trace), Ok(got)),
        follows(delete_log, service::delete_file(settings, path, trace), Ok(())),
    ensures
        exists|first: Seq<Action>, second: Seq<Action>, third: Seq<Action>| #[trigger]
            consists(settings, first, put_log) && #[trigger] consists(settings, second, get_log)
                && #[trigger] consists(settings, third, delete_log) && forall|player: Player|
                #![trigger run(player, first + second + third)]
                run(player, first + second + third) is Some ==> {
                    &&& got == data
                    &&& run(player, first + second + third)->Some_0.files == player.files
                },
{
    let first = lemma_put_file(settings, data, path, chunk_size, trace, put_log);
    let second = lemma_get_file(settings, path, chunk_size, trace, get_log, got);
    let third = lemma_delete_file(settings, path, trace, delete_log);
    let text = encode_utf8(path);
    assert forall|player: Player|
        #![trigger run(player, first + second + third)]
        run(player, first + second + third) is Some implies {
        &&& got == data
        &&& run(player, first + second + third)->Some_0.files == player.files
    } by {
        lemma_run_concat(player, first + second, third);
        lemma_run_concat(player, first, second);
        let created = run(player, first)->Some_0;
        let read = run(created, second)->Some_0;
        assert(run(read, third) is Some);
        assert(created.files == player.files.insert(text, data));
        assert(created.files.remove(text) =~= player.files);
    }
}

} // verus!
