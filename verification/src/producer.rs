use vstd::prelude::*;

verus! {

/// What the producer loop of the encode path observes next: a body
/// chunk arrived, the body failed, the last write failed, or the body
/// ended cleanly.
pub enum ProducerEvent {
    ChunkArrived(Vec<u8>),
    IngressFailed,
    WriteFailed,
    BodyFinished,
}

/// What the producer loop does in answer: write the chunk into the
/// compressing writer, or stop and shut the writer down — which flushes
/// the final compressed frame and seals the last ciphertext frame.
pub enum ProducerAction {
    WriteChunk(Vec<u8>),
    Finalize,
}

/// Whether the loop keeps pulling chunks afterwards.
#[derive(Clone, Copy, Debug, PartialEq, Eq, Structural)]
pub enum ProducerState {
    Pulling,
    Stopped,
}

/// One decision of the producer loop: a chunk is written and the loop
/// keeps pulling; any failure, of the body or of the write, and the
/// clean end of the body all stop the loop and finalize the writer —
/// shutdown runs on every exit path.
pub fn producer_step(state: ProducerState, event: ProducerEvent) -> (r: (
    ProducerState,
    ProducerAction,
))
    requires
        state == ProducerState::Pulling,
    ensures
        event matches ProducerEvent::ChunkArrived(b) ==> r.0 == ProducerState::Pulling
            && (r.1 matches ProducerAction::WriteChunk(w) && w@ == b@),
        !(event is ChunkArrived) ==> r.0 == ProducerState::Stopped
            && r.1 is Finalize,
{
    match event {
        ProducerEvent::ChunkArrived(b) => (ProducerState::Pulling, ProducerAction::WriteChunk(b)),
        ProducerEvent::IngressFailed => (ProducerState::Stopped, ProducerAction::Finalize),
        ProducerEvent::WriteFailed => (ProducerState::Stopped, ProducerAction::Finalize),
        ProducerEvent::BodyFinished => (ProducerState::Stopped, ProducerAction::Finalize),
    }
}

} // verus!
