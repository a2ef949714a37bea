//! The verifier's side: what it answers to a commit, and how it judges what it receives.

use vstd::prelude::*;
use vstd::string::StringExecFns;
use crate::hash::blake3_digest;
use crate::leaves::is_power_of_two;
use crate::protocol::{
    held_verdict,
    held_view,
    judge_reveal,
    lemma_committed_reveal_is_judged_accepted,
    verify_commit,
    CommitError,
    CommitMessage,
    ProtocolError,
    RevealMessage,
};

verus! {

/// The answer to a commit that was taken.
#[derive(Debug)]
pub struct SuccessResponse {
    pub status: String,
    pub message: String,
    pub processed_at: String,
    pub root_hash: String,
    pub path_count: usize,
}

impl SuccessResponse {
    /// This is the answer to `commit`, taken at the moment that `processed_at` writes:
    /// it reports success, repeats the root and counts the batches of leaves.
    pub open spec fn answers(&self, commit: CommitMessage, processed_at: String) -> bool {
        &&& self.status@ == "success"@
        &&& self.message@ == "Game state processed successfully"@
        &&& self.processed_at == processed_at
        &&& self.root_hash@ == commit.root@
        &&& self.path_count == commit.path@.len()
    }
}

/// What the verifier receives: the commit of a round, or the reveal that follows it.
#[derive(Debug)]
pub enum GameState {
    Commit(CommitMessage),
    Reveal(RevealMessage),
}

/// What the verifier has taken.
#[derive(Debug)]
pub enum Processed {
    /// A commit: the answer to it, and its leaves, which the verifier holds from now on.
    Committed(SuccessResponse, Vec<[u8; 32]>),
    /// A reveal.
    Revealed,
}

/// Why the verifier has turned down what it received.
#[derive(Debug, Clone, Copy, PartialEq, Eq)]
pub enum Refusal {
    Commit(CommitError),
    Reveal(ProtocolError),
}

/// `result` is what the verifier returns for a reveal on which the verdict is `verdict`.
pub open spec fn is_reveal_outcome(
    result: Result<Processed, Refusal>,
    verdict: Result<(), ProtocolError>,
) -> bool {
    match verdict {
        Ok(_) => result matches Ok(Processed::Revealed),
        Err(error) => result matches Err(Refusal::Reveal(e)) && e == error,
    }
}

/// The verifier holds a commit that lists `digest` among its leaves.
pub open spec fn held_lists(held: Option<Seq<[u8; 32]>>, digest: [u8; 32]) -> bool {
    held matches Some(leaves) && leaves.contains(digest)
}

/// The verifier holds a commit whose leaves make a tree and list `digest`.
pub open spec fn held_binds(held: Option<Seq<[u8; 32]>>, digest: [u8; 32]) -> bool {
    held matches Some(leaves) && is_power_of_two(leaves.len()) && leaves.contains(digest)
}

/// The liveness marker.
pub open spec fn health_marker() -> Seq<char> {
    "OK"@
}

/// The answer to `payload`, taken at the moment that `processed_at` writes: it reports
/// success, repeats the root and counts the batches of leaves.
pub fn acknowledge(payload: &CommitMessage, processed_at: String) -> (response: SuccessResponse)
    ensures
        response.answers(*payload, processed_at),
{
    SuccessResponse {
        status: String::from_str("success"),
        message: String::from_str("Game state processed successfully"),
        processed_at,
        root_hash: payload.root.clone(),
        path_count: payload.path.len(),
    }
}

/// Takes a commit only after it has passed the verifier's check: every listed text has
/// to be that of a leaf, the leaves have to make a tree, and the stated root has to be
/// the text of the root over them. A commit that passes is answered as `acknowledge`
/// answers it, at the moment that `processed_at` writes, and its leaves are handed out
/// for the reveals to be checked against. A commit that does not pass gets no answer.
pub fn accept_commit(commit: &CommitMessage, processed_at: String) -> (result: Result<
    (SuccessResponse, Vec<[u8; 32]>),
    CommitError,
>)
    ensures
        match result {
            Ok((response, leaves)) => commit.passes_with(leaves@) && response.answers(
                *commit,
                processed_at,
            ),
            Err(error) => commit.fails_with(error),
        },
{
    match verify_commit(commit) {
        Ok(leaves) => Ok((acknowledge(commit, processed_at), leaves)),
        Err(e) => Err(e),
    }
}

/// Judges what the verifier has received. `held` is the leaves of the last commit that
/// was taken, and nothing where none was; `processed_at` writes the present moment.
///
/// A commit is taken exactly when it passes the verifier's check, and is then answered;
/// the leaves that come back are what the verifier holds next.
///
/// A reveal is taken exactly when it is consistent in itself and bound by the held
/// commit. A reveal whose segment does not hash to the stated hash is refused with
/// `HashMismatch`; otherwise one that states an offset outside the segment, or another
/// byte than the segment holds there, with `ValueMismatch`; otherwise one whose segment
/// is not a leaf of the held commit, or that meets no held commit, with `NotCommitted`.
pub fn process_game_state(
    payload: &GameState,
    held: &Option<Vec<[u8; 32]>>,
    processed_at: String,
) -> (result: Result<Processed, Refusal>)
    ensures
        match *payload {
            GameState::Commit(commit) => match result {
                Ok(Processed::Committed(response, leaves)) => commit.passes_with(leaves@)
                    && response.answers(commit, processed_at),
                Ok(Processed::Revealed) => false,
                Err(Refusal::Commit(error)) => commit.fails_with(error),
                Err(Refusal::Reveal(_)) => false,
            },
            GameState::Reveal(message) => is_reveal_outcome(
                result,
                held_verdict(message, held_view(*held)),
            ),
        },
        payload matches GameState::Reveal(message) ==> (message.verdict() is Err
            ==> is_reveal_outcome(result, message.verdict())),
        payload matches GameState::Reveal(message) ==> (message.verdict() is Ok && held_binds(
            held_view(*held),
            blake3_digest(message.segment@),
        ) ==> result matches Ok(Processed::Revealed)),
        payload matches GameState::Reveal(message) ==> (message.verdict() is Ok && !held_lists(
            held_view(*held),
            blake3_digest(message.segment@),
        ) ==> is_reveal_outcome(result, Err(ProtocolError::NotCommitted))),
{
    match payload {
        GameState::Commit(commit) => match accept_commit(commit, processed_at) {
            Ok((response, leaves)) => Ok(Processed::Committed(response, leaves)),
            Err(error) => Err(Refusal::Commit(error)),
        },
        GameState::Reveal(message) => {
            proof {
                if message.verdict() is Ok && held_binds(
                    held_view(*held),
                    blake3_digest(message.segment@),
                ) {
                    lemma_committed_reveal_is_judged_accepted(*message, held_view(*held)->0);
                }
            }
            match judge_reveal(message, held) {
                Ok(_) => Ok(Processed::Revealed),
                Err(error) => Err(Refusal::Reveal(error)),
            }
        },
    }
}

/// The answer to a liveness probe.
pub fn handle_health_check() -> (marker: &'static str)
    ensures
        marker@ == health_marker(),
{
    "OK"
}

} // verus!
