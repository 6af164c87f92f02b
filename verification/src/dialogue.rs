//! Dialogues: what a session does next, depending on what it has heard so far.
//!
//! A dialogue is a value of the model only. It says which call a session makes
//! and, for every possible answer, how it goes on, until it is over with an
//! outcome. A log *follows* a dialogue if it is the record of one course that
//! the dialogue can take.

use vstd::prelude::*;

use crate::line::{plausible, Call, Event, Reply};
use crate::transport::IoErrorKind;

verus! {

/// A dialogue that ends with an outcome of type `A`.
pub enum Dialogue<A> {
    /// Nothing is left to do.
    Over(A),
    /// Make this call, then go on as the answer demands.
    Turn(Call, spec_fn(Reply) -> Dialogue<A>),
}

/// First `first`, then whatever `next` makes of its outcome.
pub open spec fn chain<A, B>(
    first: Dialogue<A>,
    next: spec_fn(A) -> Dialogue<B>,
) -> Dialogue<B>
    decreases first,
{
    match first {
        Dialogue::Over(outcome) => next(outcome),
        Dialogue::Turn(call, rest) => Dialogue::Turn(call, |reply: Reply| chain(rest(reply), next)),
    }
}

/// First `first`; if that fails the whole dialogue fails with the same error,
/// else it goes on with what `next` makes of the result.
pub open spec fn attempt<A, B, E>(
    first: Dialogue<Result<A, E>>,
    next: spec_fn(A) -> Dialogue<Result<B, E>>,
) -> Dialogue<Result<B, E>> {
    chain(
        first,
        |outcome: Result<A, E>|
            match outcome {
                Ok(result) => next(result),
                Err(error) => Dialogue::Over(Err(error)),
            },
    )
}

/// A dialogue of a single call.
pub open spec fn turn(call: Call) -> Dialogue<Reply> {
    Dialogue::Turn(call, |reply: Reply| Dialogue::Over(reply))
}

/// The call did nothing and is to be made again: an interrupted read or write.
pub open spec fn again(event: Event) -> bool {
    &&& event.call is Write || event.call is Read
    &&& event.reply matches Reply::Failed(fault) && fault.kind == IoErrorKind::Interrupted
}

/// What is left of `dialogue` after the events of `log`, if it can take that
/// course at all: it makes the calls of the log, and gets the answers that are
/// there, each of which can be one to its call. An interrupted read or write is
/// repeated and is otherwise without effect.
pub open spec fn after<A>(dialogue: Dialogue<A>, log: Seq<Event>) -> Option<Dialogue<A>>
    decreases log.len(),
{
    if log.len() == 0 {
        Some(dialogue)
    } else {
        match dialogue {
            Dialogue::Over(_) => None,
            Dialogue::Turn(call, rest) => {
                if log[0].call != call || !plausible(log[0]) {
                    None
                } else if again(log[0]) {
                    after(dialogue, log.skip(1))
                } else {
                    after(rest(log[0].reply), log.skip(1))
                }
            },
        }
    }
}

/// `log` is the record of the whole of `dialogue`, and it ended with `outcome`.
pub open spec fn follows<A>(log: Seq<Event>, dialogue: Dialogue<A>, outcome: A) -> bool {
    after(dialogue, log) == Some(Dialogue::Over(outcome))
}

/// `now` extends `start` by events after which `rest` is left of `dialogue`.
pub open spec fn reaches<A>(
    start: Seq<Event>,
    dialogue: Dialogue<A>,
    now: Seq<Event>,
    rest: Dialogue<A>,
) -> bool {
    &&& start.len() <= now.len()
    &&& now.take(start.len() as int) == start
    &&& after(dialogue, now.skip(start.len() as int)) == Some(rest)
}

/// Two stretches of a log, one after the other.
pub proof fn lemma_after_concat<A>(dialogue: Dialogue<A>, first: Seq<Event>, second: Seq<Event>)
    requires
        after(dialogue, first) is Some,
    ensures
        after(dialogue, first + second) == after(after(dialogue, first)->Some_0, second),
    decreases first.len(),
{
    if first.len() == 0 {
        assert(first + second =~= second);
    } else {
        assert((first + second).skip(1) =~= first.skip(1) + second);
        match dialogue {
            Dialogue::Over(_) => {},
            Dialogue::Turn(call, rest) => {
                if again(first[0]) {
                    lemma_after_concat(dialogue, first.skip(1), second);
                } else {
                    lemma_after_concat(rest(first[0].reply), first.skip(1), second);
                }
            },
        }
    }
}

/// A chain takes every course that its first part takes.
pub proof fn lemma_after_chain<A, B>(
    first: Dialogue<A>,
    next: spec_fn(A) -> Dialogue<B>,
    log: Seq<Event>,
)
    requires
        after(first, log) is Some,
    ensures
        after(chain(first, next), log) == Some(chain(after(first, log)->Some_0, next)),
    decreases log.len(),
{
    if log.len() > 0 {
        match first {
            Dialogue::Over(_) => {},
            Dialogue::Turn(call, rest) => {
                if again(log[0]) {
                    lemma_after_chain(first, next, log.skip(1));
                } else {
                    lemma_after_chain(rest(log[0].reply), next, log.skip(1));
                }
            },
        }
    }
}

/// A dialogue that is at the beginning of a chain can be carried out as part
/// of a larger one.
pub proof fn lemma_part<A, B>(
    start: Seq<Event>,
    whole: Dialogue<B>,
    before: Seq<Event>,
    part: Dialogue<A>,
    now: Seq<Event>,
    outcome: A,
)
    requires
        reaches(before, part, now, Dialogue::Over(outcome)),
    ensures
        forall|next: spec_fn(A) -> Dialogue<B>|
            reaches(start, whole, before, #[trigger] chain(part, next)) ==> reaches(
                start,
                whole,
                now,
                next(outcome),
            ),
{
    assert forall|next: spec_fn(A) -> Dialogue<B>|
        reaches(start, whole, before, #[trigger] chain(part, next)) implies reaches(
        start,
        whole,
        now,
        next(outcome),
    ) by {
        let mine = now.skip(before.len() as int);
        let earlier = before.skip(start.len() as int);
        assert(now.skip(start.len() as int) =~= earlier + mine);
        assert(now.take(start.len() as int) =~= now.take(before.len() as int).take(
            start.len() as int,
        ));
        lemma_after_concat(whole, earlier, mine);
        lemma_after_chain(part, next, mine);
    }
}

/// A dialogue that is all that is left of a larger one brings it to its end.
pub proof fn lemma_last<A>(
    start: Seq<Event>,
    whole: Dialogue<A>,
    before: Seq<Event>,
    part: Dialogue<A>,
    now: Seq<Event>,
    rest: Dialogue<A>,
)
    requires
        reaches(start, whole, before, part),
        reaches(before, part, now, rest),
    ensures
        reaches(start, whole, now, rest),
{
    let mine = now.skip(before.len() as int);
    let earlier = before.skip(start.len() as int);
    assert(now.skip(start.len() as int) =~= earlier + mine);
    assert(now.take(start.len() as int) =~= now.take(before.len() as int).take(start.len() as int));
    lemma_after_concat(whole, earlier, mine);
}

/// Where nothing has happened yet, the whole dialogue is left.
pub proof fn lemma_start<A>(log: Seq<Event>, dialogue: Dialogue<A>)
    ensures
        reaches(log, dialogue, log, dialogue),
{
    assert(log.take(log.len() as int) =~= log);
    assert(log.skip(log.len() as int) =~= Seq::<Event>::empty());
}

/// A single event, as a dialogue of one call.
pub proof fn lemma_turn(before: Seq<Event>, event: Event)
    requires
        plausible(event),
        !again(event),
    ensures
        reaches(before, turn(event.call), before.push(event), Dialogue::Over(event.reply)),
{
    let now = before.push(event);
    assert(now.take(before.len() as int) =~= before);
    assert(now.skip(before.len() as int) =~= seq![event]);
    assert(seq![event].skip(1) =~= Seq::<Event>::empty());
    assert(after(turn(event.call), seq![event]) == after(
        Dialogue::Over(event.reply),
        seq![event].skip(1),
    ));
}

/// An interrupted call changes nothing about what is left.
pub proof fn lemma_again<A>(
    start: Seq<Event>,
    whole: Dialogue<A>,
    before: Seq<Event>,
    rest: Dialogue<A>,
    event: Event,
)
    requires
        reaches(start, whole, before, rest),
        again(event),
        rest matches Dialogue::Turn(call, _) && call == event.call,
    ensures
        reaches(start, whole, before.push(event), rest),
{
    let earlier = before.skip(start.len() as int);
    let now = before.push(event);
    assert(now.skip(start.len() as int) =~= earlier + seq![event]);
    assert(now.take(start.len() as int) =~= before.take(start.len() as int));
    lemma_after_concat(whole, earlier, seq![event]);
    assert(seq![event].skip(1) =~= Seq::<Event>::empty());
    assert(after(rest, seq![event]) == after(rest, seq![event].skip(1)));
}

/// Where in a record its first part ends, if that is a record of `first`, and
/// what that part ended with.
pub open spec fn opening<A>(first: Dialogue<A>, log: Seq<Event>) -> (int, A)
    decreases log.len(),
{
    match first {
        Dialogue::Over(outcome) => (0, outcome),
        Dialogue::Turn(_, rest) => if log.len() == 0 {
            arbitrary()
        } else {
            let left = if again(log[0]) {
                first
            } else {
                rest(log[0].reply)
            };
            let (end, outcome) = opening(left, log.skip(1));
            (end + 1, outcome)
        },
    }
}

/// A record of a chain falls into a record of its first part and one of what
/// comes after it.
proof fn lemma_split<A, B>(
    first: Dialogue<A>,
    next: spec_fn(A) -> Dialogue<B>,
    log: Seq<Event>,
    outcome: B,
)
    requires
        follows(log, chain(first, next), outcome),
    ensures
        0 <= opening(first, log).0 <= log.len(),
        follows(log.take(opening(first, log).0), first, opening(first, log).1),
        follows(log.skip(opening(first, log).0), next(opening(first, log).1), outcome),
    decreases log.len(),
{
    match first {
        Dialogue::Over(result) => {
            assert(log.take(0) =~= Seq::<Event>::empty());
            assert(log.skip(0) =~= log);
        },
        Dialogue::Turn(call, rest) => {
            assert(log.len() > 0);
            let left = if again(log[0]) {
                first
            } else {
                rest(log[0].reply)
            };
            lemma_split(left, next, log.skip(1), outcome);
            let end = opening(left, log.skip(1)).0;
            assert(log.take(end + 1).skip(1) =~= log.skip(1).take(end));
            assert(log.skip(end + 1) =~= log.skip(1).skip(end));
        },
    }
}

/// A record of a dialogue that begins with `first` begins with a record of
/// `first`.
pub proof fn lemma_opening<A, B>(
    first: Dialogue<A>,
    whole: Dialogue<B>,
    log: Seq<Event>,
    outcome: B,
)
    requires
        follows(log, whole, outcome),
    ensures
        forall|next: spec_fn(A) -> Dialogue<B>|
            whole == #[trigger] chain(first, next) ==> {
                &&& 0 <= opening(first, log).0 <= log.len()
                &&& follows(log.take(opening(first, log).0), first, opening(first, log).1)
                &&& follows(log.skip(opening(first, log).0), next(opening(first, log).1), outcome)
            },
{
    assert forall|next: spec_fn(A) -> Dialogue<B>|
        whole == #[trigger] chain(first, next) implies {
        &&& 0 <= opening(first, log).0 <= log.len()
        &&& follows(log.take(opening(first, log).0), first, opening(first, log).1)
        &&& follows(log.skip(opening(first, log).0), next(opening(first, log).1), outcome)
    } by {
        lemma_split(first, next, log, outcome);
    }
}

} // verus!
