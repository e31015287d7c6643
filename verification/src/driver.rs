//! The verification driver: which witness is loaded when, and how loading,
//! decoding and judging end in one exit status.
//!
//! The driver is a state machine. It never performs a step itself: it says
//! which action is due, is told how the action went, and moves on.
//! Whatever fails first ends the run; a run that has ended stays ended.

use vstd::prelude::*;
use vstd::slice::slice_subrange;

verus! {

/// Which proof format a verifier reads.
#[derive(Clone, Copy, Debug, PartialEq, Eq, Structural)]
pub enum Mode {
    /// The structural format: an explicit list of siblings.
    Baseline,
    /// The flattened format: a stream of operands. A run in this mode
    /// loads the structural proof as well, before the leaves, and then
    /// leaves it alone.
    Compiled,
}

/// The witness slots. What a slot means is fixed by its index alone;
/// nothing in a witness says what it is.
#[derive(Clone, Copy, Debug, PartialEq, Eq, Structural)]
pub enum Slot {
    Root,
    BaselineProof,
    Leaves,
    CompiledProof,
}

/// The capacity of the buffer that receives the root.
pub const ROOT_CAPACITY: usize = 32;

/// The capacity of a buffer that receives a proof or the leaves.
pub const PAYLOAD_CAPACITY: usize = 32768;

impl Slot {
    /// The index under which the witness is found.
    pub open spec fn index_of(self) -> usize {
        match self {
            Slot::Root => 0,
            Slot::BaselineProof => 1,
            Slot::Leaves => 2,
            Slot::CompiledProof => 3,
        }
    }

    /// The size of the buffer that the witness is loaded into.
    pub open spec fn capacity_of(self) -> usize {
        match self {
            Slot::Root => ROOT_CAPACITY,
            _ => PAYLOAD_CAPACITY,
        }
    }

    /// The index under which the witness is found.
    pub fn index(&self) -> (i: usize)
        ensures
            i == self.index_of(),
    {
        match self {
            Slot::Root => 0,
            Slot::BaselineProof => 1,
            Slot::Leaves => 2,
            Slot::CompiledProof => 3,
        }
    }

    /// The size of the buffer that the witness is loaded into.
    pub fn capacity(&self) -> (n: usize)
        ensures
            n == self.capacity_of(),
    {
        match self {
            Slot::Root => ROOT_CAPACITY,
            _ => PAYLOAD_CAPACITY,
        }
    }
}

/// Why a witness could not be had.
#[derive(Clone, Copy, Debug, PartialEq, Eq, Structural)]
pub enum LoadError {
    /// The witness is absent or could not be read.
    Unreadable,
    /// The witness is longer than the buffer that was to receive it.
    Truncated,
}

/// The loaded part of `buffer`, given what the load reported: the length of
/// the witness, or nothing when the witness could not be read. A witness
/// longer than its buffer is refused, never cut short.
pub fn loaded<'a>(buffer: &'a [u8], reported: Option<usize>) -> (witness: Result<
    &'a [u8],
    LoadError,
>)
    ensures
        match witness {
            Ok(bytes) => reported matches Some(n) && n <= buffer@.len() && bytes@
                == buffer@.take(n as int),
            Err(LoadError::Unreadable) => reported is None,
            Err(LoadError::Truncated) => reported matches Some(n) && n > buffer@.len(),
        },
{
    match reported {
        None => Err(LoadError::Unreadable),
        Some(n) => {
            if n > buffer.len() {
                Err(LoadError::Truncated)
            } else {
                Ok(slice_subrange(buffer, 0, n))
            }
        },
    }
}

/// The bytes of a witness that was loaded, as a plain value.
pub open spec fn loaded_bytes(witness: Result<&[u8], LoadError>) -> Option<Seq<u8>> {
    match witness {
        Ok(bytes) => Some(bytes@),
        Err(_) => None,
    }
}

/// The event that reports a load which yielded the bytes of the witness,
/// or nothing.
pub open spec fn load_outcome(witness: Option<Seq<u8>>) -> Event {
    if witness is Some {
        Event::Loaded
    } else {
        Event::LoadFailed
    }
}

/// How the recomputed root compares with the supplied one.
#[derive(Clone, Copy, Debug, PartialEq, Eq, Structural)]
pub enum Verdict {
    /// The recomputed root is the supplied root, byte for byte.
    Accepted,
    /// A root was recomputed and differs from the supplied one.
    Rejected,
    /// No root could be recomputed: the proof has too few or too many
    /// items for the leaves, or names a position that is no leaf.
    Unresolved,
}

/// The verdict on a recomputed root, if there is one, against the supplied
/// root.
pub open spec fn verdict_of(computed: Option<Seq<u8>>, root: Seq<u8>) -> Verdict {
    match computed {
        None => Verdict::Unresolved,
        Some(bytes) => if bytes == root {
            Verdict::Accepted
        } else {
            Verdict::Rejected
        },
    }
}

/// Why a run ended without accepting.
#[derive(Clone, Copy, Debug, PartialEq, Eq, Structural)]
pub enum Failure {
    /// A witness was missing, unreadable or too long for its buffer.
    LoadError,
    /// A witness was malformed.
    DecodeError,
    /// The witnesses were well formed and the recomputed root differs.
    ProofRejected,
    /// Something that must hold did not: no single root came out of the
    /// evaluation, or a step was reported that was not due.
    InternalAssertionFailure,
}

/// Where a run stands.
#[derive(Clone, Copy, Debug, PartialEq, Eq, Structural)]
pub enum State {
    LoadRoot,
    LoadProof,
    LoadLeaves,
    LoadCompiledProof,
    Decode,
    Verify,
    Done,
    Aborted(Failure),
}

/// How the action that was due went.
#[derive(Clone, Copy, Debug, PartialEq, Eq, Structural)]
pub enum Event {
    Loaded,
    LoadFailed,
    Decoded,
    Malformed,
    Judged(Verdict),
}

/// What is due in a state.
#[derive(Clone, Copy, Debug, PartialEq, Eq, Structural)]
pub enum Action {
    Load(Slot),
    Decode,
    Verify,
    Exit(i8),
}

/// The exit status of a failure. Every one differs from zero and from the
/// others.
pub open spec fn failure_status(failure: Failure) -> i8 {
    match failure {
        Failure::LoadError => -1i8,
        Failure::DecodeError => -2i8,
        Failure::ProofRejected => -3i8,
        Failure::InternalAssertionFailure => -4i8,
    }
}

/// What is said of a failure on the debug channel.
pub open spec fn diagnostic_of(failure: Failure) -> Seq<char> {
    match failure {
        Failure::LoadError => "a witness is missing, unreadable or too long"@,
        Failure::DecodeError => "a witness is malformed"@,
        Failure::ProofRejected => "the recomputed root differs from the supplied root"@,
        Failure::InternalAssertionFailure => "the evaluation did not end in a single root"@,
    }
}

/// What is said of a failure on the debug channel. Every failure has a
/// text of its own.
pub fn diagnostic(failure: Failure) -> (text: &'static str)
    ensures
        text@ == diagnostic_of(failure),
{
    match failure {
        Failure::LoadError => "a witness is missing, unreadable or too long",
        Failure::DecodeError => "a witness is malformed",
        Failure::ProofRejected => "the recomputed root differs from the supplied root",
        Failure::InternalAssertionFailure => "the evaluation did not end in a single root",
    }
}

/// The failure that an exit status stands for, if it stands for one.
pub fn failure_of(status: i8) -> (failure: Option<Failure>)
    ensures
        match failure {
            Some(f) => failure_status(f) == status,
            None => forall|f: Failure| failure_status(f) != status,
        },
{
    if status == -1 {
        Some(Failure::LoadError)
    } else if status == -2 {
        Some(Failure::DecodeError)
    } else if status == -3 {
        Some(Failure::ProofRejected)
    } else if status == -4 {
        Some(Failure::InternalAssertionFailure)
    } else {
        None
    }
}

/// The action that is due in `state`.
pub open spec fn action_in(state: State) -> Action {
    match state {
        State::LoadRoot => Action::Load(Slot::Root),
        State::LoadProof => Action::Load(Slot::BaselineProof),
        State::LoadLeaves => Action::Load(Slot::Leaves),
        State::LoadCompiledProof => Action::Load(Slot::CompiledProof),
        State::Decode => Action::Decode,
        State::Verify => Action::Verify,
        State::Done => Action::Exit(0),
        State::Aborted(failure) => Action::Exit(failure_status(failure)),
    }
}

/// Whether a run has ended in `state`.
pub open spec fn ended(state: State) -> bool {
    state is Done || state is Aborted
}

/// The state that follows `state` once `event` is reported.
pub open spec fn next_state(mode: Mode, state: State, event: Event) -> State {
    match (state, event) {
        (State::Done, _) => State::Done,
        (State::Aborted(failure), _) => State::Aborted(failure),
        (State::LoadRoot, Event::Loaded) => State::LoadProof,
        (State::LoadProof, Event::Loaded) => State::LoadLeaves,
        (State::LoadLeaves, Event::Loaded) => if mode == Mode::Compiled {
            State::LoadCompiledProof
        } else {
            State::Decode
        },
        (State::LoadCompiledProof, Event::Loaded) => State::Decode,
        (State::LoadRoot, Event::LoadFailed) => State::Aborted(Failure::LoadError),
        (State::LoadProof, Event::LoadFailed) => State::Aborted(Failure::LoadError),
        (State::LoadLeaves, Event::LoadFailed) => State::Aborted(Failure::LoadError),
        (State::LoadCompiledProof, Event::LoadFailed) => State::Aborted(Failure::LoadError),
        (State::Decode, Event::Decoded) => State::Verify,
        (State::Decode, Event::Malformed) => State::Aborted(Failure::DecodeError),
        (State::Verify, Event::Judged(Verdict::Accepted)) => State::Done,
        (State::Verify, Event::Judged(Verdict::Rejected)) => State::Aborted(
            Failure::ProofRejected,
        ),
        (State::Verify, Event::Judged(Verdict::Unresolved)) => State::Aborted(
            Failure::InternalAssertionFailure,
        ),
        _ => State::Aborted(Failure::InternalAssertionFailure),
    }
}

/// The state in which every run starts.
pub fn start() -> (state: State)
    ensures
        state == State::LoadRoot,
{
    State::LoadRoot
}

/// The action that is due in `state`.
pub fn action(state: State) -> (due: Action)
    ensures
        due == action_in(state),
{
    match state {
        State::LoadRoot => Action::Load(Slot::Root),
        State::LoadProof => Action::Load(Slot::BaselineProof),
        State::LoadLeaves => Action::Load(Slot::Leaves),
        State::LoadCompiledProof => Action::Load(Slot::CompiledProof),
        State::Decode => Action::Decode,
        State::Verify => Action::Verify,
        State::Done => Action::Exit(0),
        State::Aborted(failure) => Action::Exit(
            match failure {
                Failure::LoadError => -1,
                Failure::DecodeError => -2,
                Failure::ProofRejected => -3,
                Failure::InternalAssertionFailure => -4,
            },
        ),
    }
}

/// Moves on from `state` once `event` is reported.
pub fn step(mode: Mode, state: State, event: Event) -> (next: State)
    ensures
        next == next_state(mode, state, event),
{
    match state {
        State::Done => State::Done,
        State::Aborted(failure) => State::Aborted(failure),
        State::LoadRoot => match event {
            Event::Loaded => State::LoadProof,
            Event::LoadFailed => State::Aborted(Failure::LoadError),
            _ => State::Aborted(Failure::InternalAssertionFailure),
        },
        State::LoadProof => match event {
            Event::Loaded => State::LoadLeaves,
            Event::LoadFailed => State::Aborted(Failure::LoadError),
            _ => State::Aborted(Failure::InternalAssertionFailure),
        },
        State::LoadLeaves => match event {
            Event::Loaded => match mode {
                Mode::Compiled => State::LoadCompiledProof,
                Mode::Baseline => State::Decode,
            },
            Event::LoadFailed => State::Aborted(Failure::LoadError),
            _ => State::Aborted(Failure::InternalAssertionFailure),
        },
        State::LoadCompiledProof => match event {
            Event::Loaded => State::Decode,
            Event::LoadFailed => State::Aborted(Failure::LoadError),
            _ => State::Aborted(Failure::InternalAssertionFailure),
        },
        State::Decode => match event {
            Event::Decoded => State::Verify,
            Event::Malformed => State::Aborted(Failure::DecodeError),
            _ => State::Aborted(Failure::InternalAssertionFailure),
        },
        State::Verify => match event {
            Event::Judged(Verdict::Accepted) => State::Done,
            Event::Judged(Verdict::Rejected) => State::Aborted(Failure::ProofRejected),
            Event::Judged(Verdict::Unresolved) => State::Aborted(
                Failure::InternalAssertionFailure,
            ),
            _ => State::Aborted(Failure::InternalAssertionFailure),
        },
    }
}

/// The exit status of a run that has ended in `state`; for a run that has
/// not ended, the status of an internal failure.
pub fn exit_status(state: State) -> (status: i8)
    ensures
        ended(state) ==> action_in(state) == Action::Exit(status),
        !ended(state) ==> status == failure_status(Failure::InternalAssertionFailure),
        status == 0 <==> state is Done,
{
    match action(state) {
        Action::Exit(status) => status,
        _ => -4,
    }
}

/// The event that reports how a load went.
pub fn load_event<T>(witness: &Result<T, LoadError>) -> (event: Event)
    ensures
        event == if witness is Ok {
            Event::Loaded
        } else {
            Event::LoadFailed
        },
{
    match witness {
        Ok(_) => Event::Loaded,
        Err(_) => Event::LoadFailed,
    }
}

/// No retry and no re-entry: once a run has ended, nothing that is reported
/// changes its state or its exit status.
pub proof fn lemma_ended_runs_stay_ended(mode: Mode, state: State, event: Event)
    requires
        ended(state),
    ensures
        next_state(mode, state, event) == state,
        action_in(next_state(mode, state, event)) == action_in(state),
{
}

/// The state reached from `state` once `events` are reported in turn.
pub open spec fn run(mode: Mode, state: State, events: Seq<Event>) -> State
    decreases events.len(),
{
    if events.len() == 0 {
        state
    } else {
        run(mode, next_state(mode, state, events[0]), events.drop_first())
    }
}

/// The events of a run in which nothing fails: every load of the mode, the
/// decoding, and an accepted root.
pub open spec fn accepting_events(mode: Mode) -> Seq<Event> {
    if mode == Mode::Compiled {
        seq![
            Event::Loaded,
            Event::Loaded,
            Event::Loaded,
            Event::Loaded,
            Event::Decoded,
            Event::Judged(Verdict::Accepted),
        ]
    } else {
        seq![
            Event::Loaded,
            Event::Loaded,
            Event::Loaded,
            Event::Decoded,
            Event::Judged(Verdict::Accepted),
        ]
    }
}

/// Whatever is reported to a run that has ended, it stays where it ended.
pub proof fn lemma_run_stays_ended(mode: Mode, state: State, events: Seq<Event>)
    requires
        ended(state),
    ensures
        run(mode, state, events) == state,
    decreases events.len(),
{
    if events.len() > 0 {
        lemma_run_stays_ended(mode, state, events.drop_first());
    }
}

/// A run accepts only one way: whatever sequence of events takes a run from
/// its start to `Done` begins with the loads of its mode, the decoding and
/// an accepted root, each reported once and in this order. Nothing that is
/// reported after a failure, and no second attempt, leads to `Done`.
pub proof fn lemma_one_way_to_accept(mode: Mode, events: Seq<Event>)
    requires
        run(mode, State::LoadRoot, events) is Done,
    ensures
        accepting_events(mode).is_prefix_of(events),
{
    lemma_accepting_from(mode, 0, events);
    assert(accepting_events(mode).skip(0) =~= accepting_events(mode));
}

/// The state in which a run stands after `k` events while nothing fails.
spec fn script_state(mode: Mode, k: int) -> State {
    if k == 0 {
        State::LoadRoot
    } else if k == 1 {
        State::LoadProof
    } else if k == 2 {
        State::LoadLeaves
    } else if mode == Mode::Compiled {
        if k == 3 {
            State::LoadCompiledProof
        } else if k == 4 {
            State::Decode
        } else if k == 5 {
            State::Verify
        } else {
            State::Done
        }
    } else {
        if k == 3 {
            State::Decode
        } else if k == 4 {
            State::Verify
        } else {
            State::Done
        }
    }
}

/// While nothing fails, the event that is due moves a run on by one state,
/// and any other event aborts it.
proof fn lemma_script_step(mode: Mode, k: int)
    requires
        0 <= k < accepting_events(mode).len(),
    ensures
        !ended(script_state(mode, k)),
        next_state(mode, script_state(mode, k), accepting_events(mode)[k]) == script_state(
            mode,
            k + 1,
        ),
        forall|event: Event|
            event != accepting_events(mode)[k] ==> (#[trigger] next_state(
                mode,
                script_state(mode, k),
                event,
            )) is Aborted,
{
}

/// From the state after `k` events of a run in which nothing failed, only
/// the remaining events of such a run lead to `Done`.
proof fn lemma_accepting_from(mode: Mode, k: int, rest: Seq<Event>)
    requires
        0 <= k <= accepting_events(mode).len(),
        run(mode, script_state(mode, k), rest) is Done,
    ensures
        accepting_events(mode).skip(k).is_prefix_of(rest),
    decreases accepting_events(mode).len() - k,
{
    let script = accepting_events(mode);
    if k < script.len() {
        lemma_script_step(mode, k);
        if rest.len() > 0 {
            let next = next_state(mode, script_state(mode, k), rest[0]);
            if rest[0] != script[k] {
                lemma_run_stays_ended(mode, next, rest.drop_first());
            } else {
                lemma_accepting_from(mode, k + 1, rest.drop_first());
                let tail = script.skip(k + 1);
                let head = script.skip(k);
                let behind = rest.drop_first();
                assert(tail == behind.subrange(0, tail.len() as int));
                assert forall|i: int| 0 <= i < head.len() implies head[i] == rest[i] by {
                    if i > 0 {
                        assert(head[i] == tail[i - 1]);
                        assert(behind.subrange(0, tail.len() as int)[i - 1] == behind[i - 1]);
                    }
                }
                assert(head =~= rest.subrange(0, head.len() as int));
            }
        }
    } else {
        assert(script.skip(k) =~= rest.subrange(0, 0));
    }
}

/// A run exits with zero only from `Done`, and `Done` is entered only from
/// `Verify`, on an accepted root.
pub proof fn lemma_success_needs_accepted_root(mode: Mode, state: State, event: Event)
    requires
        !ended(state),
    ensures
        action_in(next_state(mode, state, event)) == Action::Exit(0) <==> state is Verify && event
            == Event::Judged(Verdict::Accepted),
        action_in(state) != Action::Exit(0),
{
}

/// Any failed load ends the run at once with a load error, before anything
/// is decoded.
pub proof fn lemma_load_failure_aborts(mode: Mode, state: State)
    requires
        action_in(state) is Load,
    ensures
        next_state(mode, state, Event::LoadFailed) == State::Aborted(Failure::LoadError),
{
}

/// `bytes` with bit `bit` of the byte at `index` flipped.
pub open spec fn with_bit_flipped(bytes: Seq<u8>, index: int, bit: u8) -> Seq<u8> {
    bytes.update(index, bytes[index] ^ (1u8 << bit))
}

/// Flipping a bit changes the bytes.
pub proof fn lemma_flip_differs(bytes: Seq<u8>, index: int, bit: u8)
    requires
        0 <= index < bytes.len(),
        bit < 8,
    ensures
        with_bit_flipped(bytes, index, bit) != bytes,
        with_bit_flipped(bytes, index, bit).len() == bytes.len(),
{
    let byte = bytes[index];
    assert(byte ^ (1u8 << bit) != byte) by (bit_vector)
        requires
            bit < 8,
    ;
    assert(with_bit_flipped(bytes, index, bit)[index] != bytes[index]);
}

/// The two modes differ in one transition only: once the leaves are loaded,
/// the flattened verifier goes on to load its proof. On every other state
/// and event, and so on every failure and every verdict, both modes move
/// to the same state and exit with the same status.
pub proof fn lemma_modes_agree(state: State, event: Event)
    requires
        !(state is LoadLeaves && event is Loaded),
    ensures
        next_state(Mode::Baseline, state, event) == next_state(Mode::Compiled, state, event),
{
}

/// A root that differs from an accepted one is rejected, whatever else is
/// supplied: no two roots are accepted for the same proof and leaves.
pub proof fn lemma_other_root_rejected(computed: Option<Seq<u8>>, root: Seq<u8>, other: Seq<u8>)
    requires
        verdict_of(computed, root) == Verdict::Accepted,
        other != root,
    ensures
        verdict_of(computed, other) == Verdict::Rejected,
{
}

} // verus!
