use mmr_verifier::driver::{
    action, diagnostic, exit_status, failure_of, load_event, loaded, start, step, Action, Event,
    Failure, LoadError, Mode, Slot, State, Verdict, PAYLOAD_CAPACITY, ROOT_CAPACITY,
};

const EVENTS: [Event; 7] = [
    Event::Loaded,
    Event::LoadFailed,
    Event::Decoded,
    Event::Malformed,
    Event::Judged(Verdict::Accepted),
    Event::Judged(Verdict::Rejected),
    Event::Judged(Verdict::Unresolved),
];

const FAILURES: [Failure; 4] = [
    Failure::LoadError,
    Failure::DecodeError,
    Failure::ProofRejected,
    Failure::InternalAssertionFailure,
];

#[test]
fn slots_are_bound_to_fixed_indices() {
    assert_eq!(Slot::Root.index(), 0);
    assert_eq!(Slot::BaselineProof.index(), 1);
    assert_eq!(Slot::Leaves.index(), 2);
    assert_eq!(Slot::CompiledProof.index(), 3);
}

#[test]
fn buffers_have_fixed_capacities() {
    assert_eq!(ROOT_CAPACITY, 32);
    assert_eq!(PAYLOAD_CAPACITY, 32 * 1024);
    assert_eq!(Slot::Root.capacity(), 32);
    assert_eq!(Slot::BaselineProof.capacity(), 32768);
    assert_eq!(Slot::Leaves.capacity(), 32768);
    assert_eq!(Slot::CompiledProof.capacity(), 32768);
}

#[test]
fn loaded_hands_out_the_reported_length() {
    let buffer = [1u8, 2, 3, 4];
    assert_eq!(loaded(&buffer, Some(3)), Ok(&buffer[..3]));
    assert_eq!(loaded(&buffer, Some(0)), Ok(&buffer[..0]));
    assert_eq!(loaded(&buffer, Some(4)), Ok(&buffer[..]));
}

#[test]
fn loaded_refuses_a_witness_that_was_not_read() {
    assert_eq!(loaded(&[1, 2, 3], None), Err(LoadError::Unreadable));
    assert_eq!(loaded(&[], None), Err(LoadError::Unreadable));
}

#[test]
fn loaded_refuses_a_witness_longer_than_its_buffer() {
    assert_eq!(loaded(&[1, 2, 3], Some(4)), Err(LoadError::Truncated));
    assert_eq!(loaded(&[], Some(1)), Err(LoadError::Truncated));
    assert_eq!(loaded(&[0; 32], Some(usize::MAX)), Err(LoadError::Truncated));
}

#[test]
fn load_event_reports_success_and_failure() {
    assert_eq!(load_event(&Ok::<u8, LoadError>(1)), Event::Loaded);
    assert_eq!(load_event(&Err::<u8, LoadError>(LoadError::Unreadable)), Event::LoadFailed);
    assert_eq!(load_event(&Err::<u8, LoadError>(LoadError::Truncated)), Event::LoadFailed);
}

#[test]
fn the_baseline_run_loads_three_witnesses_then_decodes_and_verifies() {
    let mode = Mode::Baseline;
    let mut state = start();
    assert_eq!(state, State::LoadRoot);
    assert_eq!(action(state), Action::Load(Slot::Root));
    state = step(mode, state, Event::Loaded);
    assert_eq!(state, State::LoadProof);
    assert_eq!(action(state), Action::Load(Slot::BaselineProof));
    state = step(mode, state, Event::Loaded);
    assert_eq!(state, State::LoadLeaves);
    assert_eq!(action(state), Action::Load(Slot::Leaves));
    state = step(mode, state, Event::Loaded);
    assert_eq!(state, State::Decode);
    assert_eq!(action(state), Action::Decode);
    state = step(mode, state, Event::Decoded);
    assert_eq!(state, State::Verify);
    assert_eq!(action(state), Action::Verify);
    state = step(mode, state, Event::Judged(Verdict::Accepted));
    assert_eq!(state, State::Done);
    assert_eq!(action(state), Action::Exit(0));
    assert_eq!(exit_status(state), 0);
}

#[test]
fn the_compiled_run_loads_the_flattened_proof_after_the_leaves() {
    let mode = Mode::Compiled;
    let mut state = start();
    state = step(mode, state, Event::Loaded);
    assert_eq!(state, State::LoadProof);
    state = step(mode, state, Event::Loaded);
    assert_eq!(state, State::LoadLeaves);
    state = step(mode, state, Event::Loaded);
    assert_eq!(state, State::LoadCompiledProof);
    assert_eq!(action(state), Action::Load(Slot::CompiledProof));
    state = step(mode, state, Event::Loaded);
    assert_eq!(state, State::Decode);
    state = step(mode, state, Event::Decoded);
    assert_eq!(state, State::Verify);
    state = step(mode, state, Event::Judged(Verdict::Accepted));
    assert_eq!(state, State::Done);
}

#[test]
fn a_failed_load_aborts_from_every_loading_state() {
    for mode in [Mode::Baseline, Mode::Compiled] {
        for state in [State::LoadRoot, State::LoadProof, State::LoadLeaves, State::LoadCompiledProof] {
            let next = step(mode, state, Event::LoadFailed);
            assert_eq!(next, State::Aborted(Failure::LoadError));
            assert_eq!(action(next), Action::Exit(-1));
        }
    }
}

#[test]
fn a_malformed_witness_aborts_with_a_decode_error() {
    let next = step(Mode::Baseline, State::Decode, Event::Malformed);
    assert_eq!(next, State::Aborted(Failure::DecodeError));
    assert_eq!(exit_status(next), -2);
}

#[test]
fn a_rejected_root_is_no_decode_error() {
    let rejected = step(Mode::Baseline, State::Verify, Event::Judged(Verdict::Rejected));
    assert_eq!(rejected, State::Aborted(Failure::ProofRejected));
    assert_eq!(exit_status(rejected), -3);
    let unresolved = step(Mode::Compiled, State::Verify, Event::Judged(Verdict::Unresolved));
    assert_eq!(unresolved, State::Aborted(Failure::InternalAssertionFailure));
    assert_eq!(exit_status(unresolved), -4);
}

#[test]
fn every_failure_has_its_own_nonzero_status() {
    let statuses: Vec<i8> = FAILURES.iter().map(|f| exit_status(State::Aborted(*f))).collect();
    assert_eq!(statuses, vec![-1, -2, -3, -4]);
    for failure in FAILURES {
        assert_eq!(action(State::Aborted(failure)), Action::Exit(exit_status(State::Aborted(failure))));
    }
}

#[test]
fn an_ended_run_stays_ended() {
    for mode in [Mode::Baseline, Mode::Compiled] {
        for event in EVENTS {
            assert_eq!(step(mode, State::Done, event), State::Done);
            for failure in FAILURES {
                assert_eq!(step(mode, State::Aborted(failure), event), State::Aborted(failure));
            }
        }
    }
}

#[test]
fn an_event_that_is_not_due_is_an_internal_failure() {
    let internal = State::Aborted(Failure::InternalAssertionFailure);
    assert_eq!(step(Mode::Baseline, State::LoadRoot, Event::Decoded), internal);
    assert_eq!(step(Mode::Baseline, State::LoadRoot, Event::Judged(Verdict::Accepted)), internal);
    assert_eq!(step(Mode::Baseline, State::Decode, Event::Loaded), internal);
    assert_eq!(step(Mode::Baseline, State::Decode, Event::Judged(Verdict::Accepted)), internal);
    assert_eq!(step(Mode::Compiled, State::Verify, Event::Decoded), internal);
    assert_eq!(step(Mode::Compiled, State::Verify, Event::Loaded), internal);
    assert_eq!(step(Mode::Compiled, State::LoadCompiledProof, Event::Malformed), internal);
}

#[test]
fn only_an_accepted_root_leads_to_status_zero() {
    let states = [
        State::LoadRoot,
        State::LoadProof,
        State::LoadLeaves,
        State::LoadCompiledProof,
        State::Decode,
        State::Verify,
    ];
    for mode in [Mode::Baseline, Mode::Compiled] {
        for state in states {
            for event in EVENTS {
                let next = step(mode, state, event);
                let accepted = state == State::Verify && event == Event::Judged(Verdict::Accepted);
                assert_eq!(next == State::Done, accepted);
                assert_eq!(exit_status(next) == 0, accepted);
            }
        }
    }
}

#[test]
fn the_modes_differ_only_after_the_leaves_are_loaded() {
    let states = [
        State::LoadRoot,
        State::LoadProof,
        State::LoadLeaves,
        State::LoadCompiledProof,
        State::Decode,
        State::Verify,
        State::Done,
        State::Aborted(Failure::DecodeError),
    ];
    for state in states {
        for event in EVENTS {
            let same = step(Mode::Baseline, state, event) == step(Mode::Compiled, state, event);
            assert_eq!(same, !(state == State::LoadLeaves && event == Event::Loaded));
        }
    }
}

#[test]
fn a_run_that_has_not_ended_has_the_status_of_an_internal_failure() {
    assert_eq!(exit_status(State::LoadRoot), -4);
    assert_eq!(exit_status(State::Verify), -4);
}

#[test]
fn every_failure_has_its_own_diagnostic() {
    assert_eq!(diagnostic(Failure::LoadError), "a witness is missing, unreadable or too long");
    assert_eq!(diagnostic(Failure::DecodeError), "a witness is malformed");
    assert_eq!(
        diagnostic(Failure::ProofRejected),
        "the recomputed root differs from the supplied root"
    );
    assert_eq!(
        diagnostic(Failure::InternalAssertionFailure),
        "the evaluation did not end in a single root"
    );
}

#[test]
fn a_status_stands_for_at_most_one_failure() {
    for failure in FAILURES {
        assert_eq!(failure_of(exit_status(State::Aborted(failure))), Some(failure));
    }
    assert_eq!(failure_of(0), None);
    assert_eq!(failure_of(1), None);
    assert_eq!(failure_of(-5), None);
    assert_eq!(failure_of(i8::MIN), None);
    assert_eq!(failure_of(i8::MAX), None);
}
