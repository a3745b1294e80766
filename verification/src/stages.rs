//! The stages after the reading: decoding, mixing and handing out.
//!
//! As with the reading, a stage decides what is done next, and its caller does it
//! and reports. Each stage has a channel on which the next one can ask it to
//! stop; it passes such a request on to the stage before it.
use vstd::prelude::*;
use bulletformat::ChessBoard;
#[allow(unused_imports)]
use crate::buffer::{batch_view, larger, BufferState};
use crate::buffer::ShuffleBuffer;
use crate::loader::BOARD_BYTES;
#[allow(unused_imports)]
use crate::rng::RngState;
use crate::shuffle::shuffle;
#[allow(unused_imports)]
use crate::shuffle::{picks_from, shuffled, valid_picks};

verus! {

/// What the caller of the decoding has to do next.
pub enum ConvertAction {
    /// Wait for a batch of games, then report `Games`. If no more can come, end.
    Receive,
    /// See whether a request to stop has come in, then report `StopPolled`.
    PollStop,
    /// Decode the games and send on their positions, then report `Converted`.
    Convert(Vec<Vec<u8>>),
    /// Ask the reading to stop, and end.
    SignalStop,
}

/// What the caller of the decoding reports.
pub enum ConvertEvent {
    /// A batch of games came in.
    Games(Vec<Vec<u8>>),
    /// Whether a request to stop has come in.
    StopPolled(bool),
    /// The games are decoded.
    Converted,
}

/// Which batch waits, and what is done next, once something is reported while
/// `waiting` waits. A batch is decoded unless a request to stop has come in by
/// then.
pub open spec fn convert_step(waiting: Option<Vec<Vec<u8>>>, event: ConvertEvent) -> (
    Option<Vec<Vec<u8>>>,
    ConvertAction,
) {
    match event {
        ConvertEvent::Games(games) => (Some(games), ConvertAction::PollStop),
        ConvertEvent::StopPolled(stop) => (
            None,
            if stop {
                ConvertAction::SignalStop
            } else {
                match waiting {
                    Some(games) => ConvertAction::Convert(games),
                    None => ConvertAction::Receive,
                }
            },
        ),
        ConvertEvent::Converted => (waiting, ConvertAction::Receive),
    }
}

/// Decides when games are decoded.
pub struct ConvertStage {
    waiting: Option<Vec<Vec<u8>>>,
}

impl ConvertStage {
    /// The batch that came in last, if it is not decoded yet.
    pub closed spec fn waiting(self) -> Option<Vec<Vec<u8>>> {
        self.waiting
    }

    /// The stage before any batch has come in.
    pub fn new() -> (stage: ConvertStage)
        ensures
            stage.waiting() is None,
    {
        ConvertStage { waiting: None }
    }

    /// Takes in a report and decides what is done next.
    pub fn step(&mut self, event: ConvertEvent) -> (action: ConvertAction)
        ensures
            (final(self).waiting(), action) == convert_step(old(self).waiting(), event),
    {
        match event {
            ConvertEvent::Games(games) => {
                self.waiting = Some(games);
                ConvertAction::PollStop
            },
            ConvertEvent::StopPolled(stop) => {
                let mut waiting: Option<Vec<Vec<u8>>> = None;
                std::mem::swap(&mut waiting, &mut self.waiting);
                if stop {
                    ConvertAction::SignalStop
                } else {
                    match waiting {
                        Some(games) => ConvertAction::Convert(games),
                        None => ConvertAction::Receive,
                    }
                }
            },
            ConvertEvent::Converted => ConvertAction::Receive,
        }
    }
}

/// What the caller of the mixing has to do next.
pub enum MixAction {
    /// Wait for decoded positions, then report `Boards`. If no more can come,
    /// end.
    Receive,
    /// See whether a request to stop has come in, then report `StopPolled`.
    PollStop,
    /// Send a shuffled batch to be handed out, then report `Sent`.
    Send(Vec<ChessBoard>),
    /// Ask the decoding to stop, and end.
    SignalStop,
}

/// What the caller of the mixing reports.
pub enum MixEvent {
    /// Decoded positions came in.
    Boards(Vec<ChessBoard>),
    /// Whether a request to stop has come in.
    StopPolled(bool),
    /// Whether the batch could be sent.
    Sent(bool),
}

/// The model of a `MixAction`.
#[verifier::ext_equal]
pub ghost enum MixCommand {
    Receive,
    PollStop,
    Send(Seq<ChessBoard>),
    SignalStop,
}

impl View for MixAction {
    type V = MixCommand;

    open spec fn view(&self) -> MixCommand {
        match self {
            MixAction::Receive => MixCommand::Receive,
            MixAction::PollStop => MixCommand::PollStop,
            MixAction::Send(boards) => MixCommand::Send(boards@),
            MixAction::SignalStop => MixCommand::SignalStop,
        }
    }
}

/// The state of the mixing.
#[verifier::ext_equal]
pub ghost struct MixState {
    /// The buffer's contents and size.
    pub buffer: BufferState,
    /// Positions that came in and are not in the buffer yet.
    pub incoming: Option<Seq<ChessBoard>>,
    /// A shuffled batch that is not sent yet.
    pub ready: Option<Seq<ChessBoard>>,
}

impl MixState {
    /// How positions that came in get into the buffer. If they make it full, the
    /// batch that leaves it is shuffled, which rearranges it, and waits to be sent.
    /// The seed of the shuffle is given.
    pub open spec fn takes_in(
        self,
        added: Seq<ChessBoard>,
        seed: u128,
        after: MixState,
        command: MixCommand,
    ) -> bool {
        let all = self.buffer.boards + added;
        let limit = self.buffer.limit as int;
        &&& after.incoming is None
        &&& after.buffer.size == self.buffer.size
        &&& after.buffer.limit >= after.buffer.size
        &&& after.buffer.boards.len() <= after.buffer.limit
        &&& if all.len() < limit {
            &&& command == MixCommand::Receive
            &&& after.buffer.boards == all
            &&& after.buffer.limit == self.buffer.limit
            &&& after.ready is None
        } else {
            &&& command == MixCommand::PollStop
            &&& after.buffer.boards == all.skip(limit)
            &&& after.ready == Some(shuffled(all.take(limit), RngState::seeded(seed)))
            &&& valid_picks(
                picks_from(RngState::seeded(seed), all.take(limit).len()),
                all.take(limit).len(),
            )
            &&& after.ready->0.to_multiset() == all.take(limit).to_multiset()
            &&& after.buffer.limit == larger(
                after.buffer.size as int,
                after.buffer.boards.len() as int,
            )
        }
    }

    /// What can come of putting positions into the buffer.
    pub open spec fn can_take_in(
        self,
        added: Seq<ChessBoard>,
        after: MixState,
        command: MixCommand,
    ) -> bool {
        exists|seed: u128| #[trigger] self.takes_in(added, seed, after, command)
    }

    /// What can come of a report.
    pub open spec fn steps_to(
        self,
        event: MixEvent,
        after: MixState,
        command: MixCommand,
    ) -> bool {
        match event {
            MixEvent::Boards(boards) => after == (MixState { incoming: Some(boards@), ..self })
                && command == MixCommand::PollStop,
            MixEvent::StopPolled(stop) => if stop {
                after == self && command == MixCommand::SignalStop
            } else {
                match self.ready {
                    Some(batch) => after == (MixState { ready: None, ..self }) && command
                        == MixCommand::Send(batch),
                    None => match self.incoming {
                        Some(added) => self.can_take_in(added, after, command),
                        None => after == self && command == MixCommand::Receive,
                    },
                }
            },
            MixEvent::Sent(sent) => if sent {
                &&& command == MixCommand::Receive
                &&& self.buffer.renews_to(after.buffer)
                &&& after == (MixState { buffer: after.buffer, ..self })
            } else {
                after == self && command == MixCommand::SignalStop
            },
        }
    }
}

/// Decides how positions are mixed, and when a batch of them is sent on.
pub struct MixStage {
    buffer: ShuffleBuffer,
    incoming: Option<Vec<ChessBoard>>,
    ready: Option<Vec<ChessBoard>>,
}

impl View for MixStage {
    type V = MixState;

    closed spec fn view(&self) -> MixState {
        MixState {
            buffer: self.buffer@,
            incoming: batch_view(self.incoming),
            ready: batch_view(self.ready),
        }
    }
}

impl MixStage {
    /// The stage with an empty buffer for `size` positions.
    pub fn new(size: usize) -> (stage: MixStage)
        requires
            size * BOARD_BYTES <= isize::MAX,
        ensures
            stage@.buffer.boards == Seq::<ChessBoard>::empty(),
            stage@.buffer.size == size,
            stage@.buffer.limit == size,
            stage@.buffer.well_formed(),
            stage@.incoming is None,
            stage@.ready is None,
    {
        MixStage { buffer: ShuffleBuffer::new(size), incoming: None, ready: None }
    }

    /// Takes in a report and decides what is done next. Space for the next batch
    /// is set aside once a batch was sent.
    pub fn step(&mut self, event: MixEvent) -> (action: MixAction)
        ensures
            old(self)@.steps_to(event, final(self)@, action@),
    {
        match event {
            MixEvent::Boards(boards) => {
                self.incoming = Some(boards);
                MixAction::PollStop
            },
            MixEvent::StopPolled(stop) => {
                if stop {
                    MixAction::SignalStop
                } else {
                    self.proceed()
                }
            },
            MixEvent::Sent(sent) => {
                if sent {
                    self.buffer.renew();
                    MixAction::Receive
                } else {
                    MixAction::SignalStop
                }
            },
        }
    }

    /// Goes on after nothing has asked to stop.
    fn proceed(&mut self) -> (action: MixAction)
        ensures
            old(self)@.steps_to(MixEvent::StopPolled(false), final(self)@, action@),
    {
        let ghost before = self@;
        let mut ready: Option<Vec<ChessBoard>> = None;
        std::mem::swap(&mut ready, &mut self.ready);
        if let Some(batch) = ready {
            return MixAction::Send(batch);
        }
        let mut incoming: Option<Vec<ChessBoard>> = None;
        std::mem::swap(&mut incoming, &mut self.incoming);
        match incoming {
            Some(added) => {
                let left: Option<Vec<ChessBoard>> = self.buffer.add(added.as_slice());
                match left {
                    Some(full) => {
                        let mut full = full;
                        let ghost filled = full@;
                        shuffle(full.as_mut_slice());
                        let ghost seed = choose|seed: u128|
                            full@ == shuffled(filled, #[trigger] RngState::seeded(seed))
                                && valid_picks(
                                picks_from(RngState::seeded(seed), filled.len()),
                                filled.len(),
                            );
                        self.ready = Some(full);
                        assert(before.takes_in(added@, seed, self@, MixCommand::PollStop));
                        MixAction::PollStop
                    },
                    None => {
                        assert(before.takes_in(added@, 0, self@, MixCommand::Receive));
                        MixAction::Receive
                    },
                }
            },
            None => MixAction::Receive,
        }
    }
}

/// What is done once a batch was handed out, and the receiver has said whether
/// it wants no more.
pub enum HandOutAction {
    /// Wait for the next batch.
    Receive,
    /// Ask the mixing to stop, and end.
    SignalStop,
}

/// Whether another batch is handed out.
pub open spec fn hand_out_step(enough: bool) -> HandOutAction {
    if enough {
        HandOutAction::SignalStop
    } else {
        HandOutAction::Receive
    }
}

/// Decides whether another batch is handed out.
pub fn after_hand_out(enough: bool) -> (action: HandOutAction)
    ensures
        action == hand_out_step(enough),
{
    if enough {
        HandOutAction::SignalStop
    } else {
        HandOutAction::Receive
    }
}

/// What each report does to the decoding, for every batch however large. A batch
/// that comes in waits until the stage has looked for a request to stop. Without
/// one, exactly that batch is decoded, and nothing waits then; with one, it is
/// not decoded, and the reading is asked to stop.
pub proof fn law_decoding_reports(waiting: Option<Vec<Vec<u8>>>, games: Vec<Vec<u8>>)
    ensures
        convert_step(waiting, ConvertEvent::Games(games)) == (
            Some(games),
            ConvertAction::PollStop,
        ),
        convert_step(Some(games), ConvertEvent::StopPolled(false)) == (
            None::<Vec<Vec<u8>>>,
            ConvertAction::Convert(games),
        ),
        convert_step(None, ConvertEvent::StopPolled(false)) == (
            None::<Vec<Vec<u8>>>,
            ConvertAction::Receive,
        ),
        convert_step(waiting, ConvertEvent::StopPolled(true)) == (
            None::<Vec<Vec<u8>>>,
            ConvertAction::SignalStop,
        ),
        convert_step(waiting, ConvertEvent::Converted) == (waiting, ConvertAction::Receive),
{
}

/// The batch that waits, what is done next, and the batches that were decoded,
/// after `batches` came in one after the other and each time all was done that the
/// stage decided on, with nothing that asks it to stop.
pub open spec fn decode_run(batches: Seq<Vec<Vec<u8>>>) -> (
    Option<Vec<Vec<u8>>>,
    ConvertAction,
    Seq<Vec<Vec<u8>>>,
)
    decreases batches.len(),
{
    if batches.len() == 0 {
        (None, ConvertAction::Receive, Seq::empty())
    } else {
        let (before, action, decoded) = decode_run(batches.drop_last());
        if action is Receive {
            let (came, polling) = convert_step(before, ConvertEvent::Games(batches.last()));
            if polling is PollStop {
                let (polled, next) = convert_step(came, ConvertEvent::StopPolled(false));
                match next {
                    ConvertAction::Convert(games) => {
                        let (after, then_done) = convert_step(polled, ConvertEvent::Converted);
                        (after, then_done, decoded.push(games))
                    },
                    _ => (polled, next, decoded),
                }
            } else {
                (came, polling, decoded)
            }
        } else {
            (before, action, decoded)
        }
    }
}

/// Every batch that comes in is decoded, once and in order, and the stage is then
/// ready for the next one.
pub proof fn law_every_batch_is_decoded(batches: Seq<Vec<Vec<u8>>>)
    ensures
        decode_run(batches) == (None::<Vec<Vec<u8>>>, ConvertAction::Receive, batches),
    decreases batches.len(),
{
    if batches.len() > 0 {
        law_every_batch_is_decoded(batches.drop_last());
        assert(batches.drop_last().push(batches.last()) =~= batches);
    } else {
        assert(batches =~= Seq::empty());
    }
}

/// What reports other than that nothing has asked to stop do to the mixing.
/// Positions that come in wait until the stage has looked for a request to stop.
/// Such a request, or a batch that cannot be sent, ends the mixing and changes
/// nothing. Once a batch was sent, the buffer gets new space: it keeps what it
/// held, and is full again at the size that it was made for if that fits, and
/// otherwise at the largest of twice that size, what it holds, and four.
pub proof fn law_mixing_reports(
    state: MixState,
    boards: Vec<ChessBoard>,
    after: MixState,
    command: MixCommand,
)
    ensures
        state.steps_to(MixEvent::Boards(boards), after, command) <==> {
            &&& command == MixCommand::PollStop
            &&& after.incoming == Some(boards@)
            &&& after.buffer == state.buffer
            &&& after.ready == state.ready
        },
        state.steps_to(MixEvent::StopPolled(true), after, command) <==> command
            == MixCommand::SignalStop && after == state,
        state.steps_to(MixEvent::Sent(false), after, command) <==> command
            == MixCommand::SignalStop && after == state,
        state.steps_to(MixEvent::Sent(true), after, command) ==> {
            &&& command == MixCommand::Receive
            &&& after.incoming == state.incoming
            &&& after.ready == state.ready
            &&& after.buffer.boards == state.buffer.boards
            &&& after.buffer.size == state.buffer.size
            &&& state.buffer.boards.len() <= state.buffer.size ==> after.buffer.limit
                == state.buffer.size
            &&& state.buffer.boards.len() > state.buffer.size ==> {
                &&& after.buffer.limit >= 2 * state.buffer.size
                &&& after.buffer.limit >= state.buffer.boards.len()
                &&& after.buffer.limit >= 4
                &&& after.buffer.limit == 2 * state.buffer.size || after.buffer.limit
                    == state.buffer.boards.len() || after.buffer.limit == 4
            }
        },
{
}

/// How the mixing goes on when nothing has asked it to stop. A batch that waits to
/// be sent is sent. Otherwise, positions that wait are added to those in the
/// buffer. While there are fewer than its limit, all of them are kept and more are
/// waited for. Once the limit is reached, exactly as many as the limit, the first
/// ones, leave the buffer and wait, shuffled, to be sent, and the others are kept
/// in order.
pub proof fn law_mixing_goes_on(state: MixState, after: MixState, command: MixCommand)
    requires
        state.steps_to(MixEvent::StopPolled(false), after, command),
    ensures
        state.ready matches Some(batch) ==> {
            &&& command == MixCommand::Send(batch)
            &&& after.ready is None
            &&& after.buffer == state.buffer
            &&& after.incoming == state.incoming
        },
        state.ready is None && state.incoming is None ==> command == MixCommand::Receive && after
            == state,
        state.ready is None && state.incoming is Some ==> {
            let all = state.buffer.boards + state.incoming->0;
            &&& after.incoming is None
            &&& after.buffer.size == state.buffer.size
            &&& all.len() < state.buffer.limit ==> {
                &&& command == MixCommand::Receive
                &&& after.ready is None
                &&& after.buffer.boards == all
                &&& after.buffer.limit == state.buffer.limit
            }
            &&& all.len() >= state.buffer.limit ==> {
                &&& command == MixCommand::PollStop
                &&& after.ready is Some
                &&& after.ready->0.len() == state.buffer.limit
                &&& after.buffer.boards.len() == all.len() - state.buffer.limit
                &&& forall|i: int|
                    0 <= i < after.buffer.boards.len() ==> #[trigger] after.buffer.boards[i]
                        == all[state.buffer.limit + i]
                &&& after.ready->0.to_multiset() == all.take(
                    state.buffer.limit as int,
                ).to_multiset()
                &&& exists|seed: u128|
                    after.ready->0 == shuffled(
                        all.take(state.buffer.limit as int),
                        #[trigger] RngState::seeded(seed),
                    )
                &&& after.buffer.limit == after.buffer.size || after.buffer.limit
                    == after.buffer.boards.len()
                &&& after.buffer.limit >= after.buffer.size
                &&& after.buffer.limit >= after.buffer.boards.len()
            }
        },
{
    if state.ready is None && state.incoming is Some {
        let added = state.incoming->0;
        assert(state.can_take_in(added, after, command));
        let seed = choose|seed: u128| #[trigger] state.takes_in(added, seed, after, command);
        let all = state.buffer.boards + added;
        if all.len() >= state.buffer.limit {
            let batch = after.ready->0;
            let first = all.take(state.buffer.limit as int);
            vstd::seq_lib::to_multiset_len(batch);
            vstd::seq_lib::to_multiset_len(first);
            assert(batch == shuffled(first, RngState::seeded(seed)));
        }
    }
}

/// An action of the mixing is what its command says.
pub proof fn law_mix_actions(boards: Vec<ChessBoard>)
    ensures
        MixAction::Receive@ == MixCommand::Receive,
        MixAction::PollStop@ == MixCommand::PollStop,
        MixAction::Send(boards)@ == MixCommand::Send(boards@),
        MixAction::SignalStop@ == MixCommand::SignalStop,
{
}

/// Another batch is waited for if and only if the receiver has not had enough;
/// otherwise the mixing is asked to stop.
pub proof fn law_handing_out(enough: bool)
    ensures
        hand_out_step(enough) == HandOutAction::SignalStop <==> enough,
        hand_out_step(enough) == HandOutAction::Receive <==> !enough,
{
}

} // verus!
