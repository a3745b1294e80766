//! Reading the files over and over and passing their games on in batches.
//!
//! [`ReadConcat`] decides what is done next. Its caller does it, be it opening a
//! file, reading a game or sending a batch, and reports how it went.
use vstd::prelude::*;
use vstd::seq_lib::*;

verus! {

/// The number of games in a batch for each worker that decodes it.
pub const GAMES_PER_WORKER: usize = 8192;

/// What the caller has to do next.
pub enum ReadAction {
    /// Open the file with this index and read past its header, then report
    /// `Opened`.
    Open(usize),
    /// Read a game from the open file, then report `Game` or `EndOfFile`.
    ReadGame,
    /// See whether a request to stop has come in, then report `StopPolled`.
    PollStop,
    /// Send a batch of games to the next stage, then report `Sent`.
    Send(Vec<Vec<u8>>),
    /// End the reading.
    Finish,
}

/// What the caller reports.
pub enum ReadEvent {
    /// The file is open.
    Opened,
    /// A game was read.
    Game(Vec<u8>),
    /// The open file has no more games.
    EndOfFile,
    /// Whether a request to stop has come in.
    StopPolled(bool),
    /// Whether the batch could be sent.
    Sent(bool),
}

/// The model of a `ReadAction`.
#[verifier::ext_equal]
pub ghost enum ReadCommand {
    Open(int),
    ReadGame,
    PollStop,
    Send(Seq<Vec<u8>>),
    Finish,
}

impl View for ReadAction {
    type V = ReadCommand;

    open spec fn view(&self) -> ReadCommand {
        match self {
            ReadAction::Open(file) => ReadCommand::Open(*file as int),
            ReadAction::ReadGame => ReadCommand::ReadGame,
            ReadAction::PollStop => ReadCommand::PollStop,
            ReadAction::Send(games) => ReadCommand::Send(games@),
            ReadAction::Finish => ReadCommand::Finish,
        }
    }
}

/// The state of the reading.
#[verifier::ext_equal]
pub ghost struct ReadState {
    /// The number of files.
    pub files: int,
    /// The number of games at which a batch is complete.
    pub batch_len: int,
    /// The file that is being read.
    pub file: int,
    /// Whether this pass over the files has met a game.
    pub met_game: bool,
    /// The games of the batch that is being put together.
    pub games: Seq<Vec<u8>>,
}

impl ReadState {
    /// The state before anything is read.
    pub open spec fn initial(files: int, batch_len: int) -> ReadState {
        ReadState { files, batch_len, file: 0, met_game: false, games: Seq::empty() }
    }

    /// The games put together make a batch. A batch of no games is never
    /// complete.
    pub open spec fn complete(self) -> bool {
        self.batch_len > 0 && self.games.len() % (self.batch_len as nat) == 0
    }

    /// What is done first.
    pub open spec fn first(self) -> ReadCommand {
        if self.files == 0 {
            ReadCommand::Finish
        } else {
            ReadCommand::Open(0)
        }
    }

    /// The state after a game was read.
    pub open spec fn with_game(self, game: Vec<u8>) -> ReadState {
        ReadState { met_game: true, games: self.games.push(game), ..self }
    }

    /// The state after the batch was taken out.
    pub open spec fn emptied(self) -> ReadState {
        ReadState { games: Seq::empty(), ..self }
    }

    /// What the next state is, and what is done next, once something is
    /// reported.
    pub open spec fn step(self, event: ReadEvent) -> (ReadState, ReadCommand) {
        match event {
            ReadEvent::Opened => (self, ReadCommand::ReadGame),
            ReadEvent::Game(game) => (
                self.with_game(game),
                if self.with_game(game).complete() {
                    ReadCommand::PollStop
                } else {
                    ReadCommand::ReadGame
                },
            ),
            ReadEvent::EndOfFile => if self.file + 1 < self.files {
                (ReadState { file: self.file + 1, ..self }, ReadCommand::Open(self.file + 1))
            } else if self.met_game {
                (ReadState { file: 0, met_game: false, ..self }, ReadCommand::Open(0))
            } else {
                (self, ReadCommand::Finish)
            },
            ReadEvent::StopPolled(stop) => if stop {
                (self, ReadCommand::Finish)
            } else {
                (self.emptied(), ReadCommand::Send(self.games))
            },
            ReadEvent::Sent(sent) => (
                self,
                if sent {
                    ReadCommand::ReadGame
                } else {
                    ReadCommand::Finish
                },
            ),
        }
    }
}

/// Decides how the files are read.
pub struct ReadConcat {
    files: usize,
    batch_len: usize,
    file: usize,
    met_game: bool,
    games: Vec<Vec<u8>>,
}

impl View for ReadConcat {
    type V = ReadState;

    closed spec fn view(&self) -> ReadState {
        ReadState {
            files: self.files as int,
            batch_len: self.batch_len as int,
            file: self.file as int,
            met_game: self.met_game,
            games: self.games@,
        }
    }
}

impl ReadConcat {
    /// The reading of `files` files into batches for `threads` workers.
    pub fn new(files: usize, threads: usize) -> (reading: ReadConcat)
        requires
            GAMES_PER_WORKER * threads <= usize::MAX,
        ensures
            reading@ == ReadState::initial(files as int, GAMES_PER_WORKER * threads),
    {
        ReadConcat {
            files,
            batch_len: GAMES_PER_WORKER * threads,
            file: 0,
            met_game: false,
            games: Vec::new(),
        }
    }

    /// What is done first.
    pub fn start(&self) -> (action: ReadAction)
        ensures
            action@ == self@.first(),
    {
        if self.files == 0 {
            ReadAction::Finish
        } else {
            ReadAction::Open(0)
        }
    }

    /// Takes in a report and decides what is done next.
    pub fn step(&mut self, event: ReadEvent) -> (action: ReadAction)
        ensures
            (final(self)@, action@) == old(self)@.step(event),
    {
        match event {
            ReadEvent::Opened => ReadAction::ReadGame,
            ReadEvent::Game(game) => {
                self.met_game = true;
                self.games.push(game);
                if self.games.len().is_multiple_of(self.batch_len) {
                    ReadAction::PollStop
                } else {
                    ReadAction::ReadGame
                }
            },
            ReadEvent::EndOfFile => {
                if self.file < self.files && self.files - self.file > 1 {
                    self.file = self.file + 1;
                    ReadAction::Open(self.file)
                } else if self.met_game {
                    self.file = 0;
                    self.met_game = false;
                    ReadAction::Open(0)
                } else {
                    ReadAction::Finish
                }
            },
            ReadEvent::StopPolled(stop) => {
                if stop {
                    ReadAction::Finish
                } else {
                    let mut batch: Vec<Vec<u8>> = Vec::new();
                    std::mem::swap(&mut batch, &mut self.games);
                    ReadAction::Send(batch)
                }
            },
            ReadEvent::Sent(sent) => {
                if sent {
                    ReadAction::ReadGame
                } else {
                    ReadAction::Finish
                }
            },
        }
    }
}

impl ReadState {
    /// What comes of reading `games` from a file, when nothing asks the reading
    /// to stop and every batch can be sent: the state, and the batches.
    pub open spec fn read_games(self, games: Seq<Vec<u8>>) -> (ReadState, Seq<Seq<Vec<u8>>>)
        decreases games.len(),
    {
        if games.len() == 0 {
            (self, Seq::empty())
        } else {
            let (before, batches) = self.read_games(games.drop_last());
            let (met, command) = before.step(ReadEvent::Game(games.last()));
            if command is PollStop {
                let (sent, send) = met.step(ReadEvent::StopPolled(false));
                (sent, batches.push(send->Send_0))
            } else {
                (met, batches)
            }
        }
    }

    /// What comes of reading the first `n` of the files that hold `files`, from
    /// the first one on: the state, the batches, and what is done next.
    pub open spec fn read_files(self, files: Seq<Seq<Vec<u8>>>, n: nat) -> (
        ReadState,
        Seq<Seq<Vec<u8>>>,
        ReadCommand,
    )
        decreases n,
    {
        if n == 0 {
            (self, Seq::empty(), self.first())
        } else {
            let (before, batches, command) = self.read_files(files, (n - 1) as nat);
            let (read, more) = before.read_games(files[n - 1]);
            let (after, next) = read.step(ReadEvent::EndOfFile);
            (after, batches + more, next)
        }
    }

    /// What comes of reading the files that hold `files` from the first to the
    /// last, `passes` times over.
    pub open spec fn read_passes(self, files: Seq<Seq<Vec<u8>>>, passes: nat) -> (
        ReadState,
        Seq<Seq<Vec<u8>>>,
        ReadCommand,
    )
        decreases passes,
    {
        if passes == 0 {
            (self, Seq::empty(), self.first())
        } else {
            let (before, batches, command) = self.read_passes(files, (passes - 1) as nat);
            let (after, more, next) = before.read_files(files, files.len());
            (after, batches + more, next)
        }
    }
}

/// `s`, `times` times over.
pub open spec fn repeated<T>(s: Seq<T>, times: nat) -> Seq<T> {
    Seq::new(times * s.len(), |i: int| s[i % (s.len() as int)])
}

/// No game is lost, doubled or moved past another: the batches and the games
/// that wait for the next one are, in order, the games that waited before and
/// those that were read. Every batch has exactly `batch_len` games.
pub proof fn law_read_games_keeps_every_game(state: ReadState, games: Seq<Vec<u8>>)
    requires
        0 <= state.batch_len,
        state.games.len() < state.batch_len || state.batch_len == 0,
    ensures
        state.read_games(games).1.flatten() + state.read_games(games).0.games == state.games
            + games,
        forall|k: int|
            0 <= k < state.read_games(games).1.len() ==> (#[trigger] state.read_games(
                games,
            ).1[k]).len() == state.batch_len && state.batch_len > 0,
        state.read_games(games).0.games.len() < state.batch_len || state.batch_len == 0,
        state.read_games(games).0 == (ReadState {
            met_game: state.met_game || games.len() > 0,
            games: state.read_games(games).0.games,
            ..state
        }),
    decreases games.len(),
{
    if games.len() == 0 {
        assert(state.read_games(games).1.flatten() =~= Seq::<Vec<u8>>::empty());
    } else {
        law_read_games_keeps_every_game(state, games.drop_last());
        let (before, batches) = state.read_games(games.drop_last());
        let met = before.with_game(games.last());
        assert(state.games + games =~= (state.games + games.drop_last()).push(games.last()));
        assert(batches.flatten() + met.games =~= (batches.flatten() + before.games).push(
            games.last(),
        ));
        if met.complete() {
            batches.lemma_flatten_push(met.games);
            assert(met.games.len() == state.batch_len) by {
                if met.games.len() < state.batch_len {
                    vstd::arithmetic::div_mod::lemma_small_mod(
                        met.games.len(),
                        state.batch_len as nat,
                    );
                }
            }
        } else if state.batch_len > 0 && met.games.len() == state.batch_len {
            vstd::arithmetic::div_mod::lemma_mod_self_0(state.batch_len);
        }
    }
}

/// A pass over the files opens each of them once and in order. It passes on
/// their games as one sequence, so that a batch can begin in one file and end in
/// another, and games that fill no batch wait for the next pass. The reading
/// goes on with the first file if the pass has met a game, and ends if it has
/// met none.
pub proof fn law_pass_over_files(state: ReadState, files: Seq<Seq<Vec<u8>>>, n: nat)
    requires
        0 <= state.batch_len,
        state.games.len() < state.batch_len || state.batch_len == 0,
        state.files == files.len(),
        state.file == 0,
        !state.met_game,
        n <= files.len(),
    ensures
        n < files.len() ==> state.read_files(files, n).2 == ReadCommand::Open(n as int),
        n == files.len() ==> (state.read_files(files, n).2 == ReadCommand::Finish
            <==> files.flatten().len() == 0),
        n == files.len() && files.flatten().len() > 0 ==> state.read_files(files, n).2
            == ReadCommand::Open(0),
        state.read_files(files, n).1.flatten() + state.read_files(files, n).0.games == state.games
            + files.take(n as int).flatten(),
        forall|k: int|
            0 <= k < state.read_files(files, n).1.len() ==> (#[trigger] state.read_files(
                files,
                n,
            ).1[k]).len() == state.batch_len && state.batch_len > 0,
        state.read_files(files, n).0.games.len() < state.batch_len || state.batch_len == 0,
        n == files.len() && files.flatten().len() > 0 ==> state.read_files(files, n).0
            == (ReadState { games: state.read_files(files, n).0.games, ..state }),
        n < files.len() ==> state.read_files(files, n).0 == (ReadState {
            file: n as int,
            met_game: files.take(n as int).flatten().len() > 0,
            games: state.read_files(files, n).0.games,
            ..state
        }),
    decreases n,
{
    if n == 0 {
        assert(files.take(0).flatten() =~= Seq::<Vec<u8>>::empty());
        assert(state.read_files(files, n).1.flatten() =~= Seq::<Vec<u8>>::empty());
        if files.len() == 0 {
            assert(files.flatten() =~= Seq::<Vec<u8>>::empty());
        }
    } else {
        let fewer = (n - 1) as nat;
        law_pass_over_files(state, files, fewer);
        let (before, batches, command) = state.read_files(files, fewer);
        let read = files[n - 1];
        law_read_games_keeps_every_game(before, read);
        let (after, more) = before.read_games(read);
        let part = files.take(fewer as int);
        assert(files.take(n as int) =~= part.push(read));
        part.lemma_flatten_push(read);
        lemma_flatten_concat(batches, more);
        assert(files.take(files.len() as int) =~= files);
        assert((batches + more).flatten() + after.games =~= batches.flatten() + (more.flatten()
            + after.games));
        assert(batches.flatten() + (before.games + read) =~= (batches.flatten() + before.games)
            + read);
        assert(state.games + (part.flatten() + read) =~= (state.games + part.flatten()) + read);
        assert forall|k: int| 0 <= k < (batches + more).len() implies (#[trigger] (batches
            + more)[k]).len() == state.batch_len && state.batch_len > 0 by {
            if k < batches.len() {
                assert((batches + more)[k] == batches[k]);
            } else {
                assert((batches + more)[k] == more[k - batches.len()]);
            }
        }
    }
}

pub(crate) proof fn lemma_repeated<T>(s: Seq<T>, times: nat)
    ensures
        repeated(s, 0) == Seq::<T>::empty(),
        repeated(s, times) + s == repeated(s, times + 1),
{
    let n = s.len() as int;
    assert(repeated(s, 0).len() == 0) by (nonlinear_arith)
        requires
            repeated(s, 0).len() == 0 * s.len(),
    ;
    assert(repeated(s, 0) =~= Seq::<T>::empty());
    assert((times + 1) * s.len() == times * s.len() + s.len()) by (nonlinear_arith);
    assert forall|i: int| 0 <= i < repeated(s, times + 1).len() implies (repeated(s, times)
        + s)[i] == repeated(s, times + 1)[i] by {
        if i >= times * s.len() {
            let j = i - times * s.len();
            assert(times * s.len() == n * times) by (nonlinear_arith)
                requires
                    n == s.len(),
            ;
            vstd::arithmetic::div_mod::lemma_mod_multiples_vanish(times as int, j, n);
            vstd::arithmetic::div_mod::lemma_small_mod(j as nat, n as nat);
        }
    }
    assert(repeated(s, times) + s =~= repeated(s, times + 1));
}

/// Files that hold a game are read again and again: the reading never ends by
/// itself, and over any number of passes the batches and the games that wait are,
/// in order, the games that waited before and then all games of the files, over
/// and over. With nothing waiting before, the game that is sent at place `i` is
/// the game at place `i`, counted round, among the games of the files.
pub proof fn law_passes_repeat(state: ReadState, files: Seq<Seq<Vec<u8>>>, passes: nat)
    requires
        0 <= state.batch_len,
        state.games.len() < state.batch_len || state.batch_len == 0,
        state.files == files.len(),
        state.file == 0,
        !state.met_game,
        files.flatten().len() > 0,
    ensures
        state.read_passes(files, passes).2 == ReadCommand::Open(0),
        state.read_passes(files, passes).1.flatten() + state.read_passes(files, passes).0.games
            == state.games + repeated(files.flatten(), passes),
        forall|k: int|
            0 <= k < state.read_passes(files, passes).1.len() ==> (#[trigger] state.read_passes(
                files,
                passes,
            ).1[k]).len() == state.batch_len && state.batch_len > 0,
        state.read_passes(files, passes).0.games.len() < state.batch_len || state.batch_len == 0,
        state.read_passes(files, passes).0 == (ReadState {
            games: state.read_passes(files, passes).0.games,
            ..state
        }),
        state.games.len() == 0 ==> forall|i: int|
            0 <= i < state.read_passes(files, passes).1.flatten().len() ==> #[trigger]
                state.read_passes(files, passes).1.flatten()[i] == files.flatten()[i % (
                files.flatten().len() as int)],
    decreases passes,
{
    let games = files.flatten();
    let (after, batches, command) = state.read_passes(files, passes);
    if passes == 0 {
        lemma_repeated(games, 0);
        assert(batches.flatten() =~= Seq::<Vec<u8>>::empty());
        if files.len() == 0 {
            assert(files.flatten() =~= Seq::<Vec<u8>>::empty());
        }
    } else {
        let fewer = (passes - 1) as nat;
        law_passes_repeat(state, files, fewer);
        let (before, earlier, earlier_command) = state.read_passes(files, fewer);
        law_pass_over_files(before, files, files.len());
        let more = before.read_files(files, files.len()).1;
        assert(files.take(files.len() as int) =~= files);
        lemma_flatten_concat(earlier, more);
        lemma_repeated(games, fewer);
        assert((earlier + more).flatten() + after.games =~= earlier.flatten() + (more.flatten()
            + after.games));
        assert(earlier.flatten() + (before.games + games) =~= (earlier.flatten() + before.games)
            + games);
        assert((state.games + repeated(games, fewer)) + games =~= state.games + (repeated(
            games,
            fewer,
        ) + games));
        assert forall|k: int| 0 <= k < batches.len() implies (#[trigger] batches[k]).len()
            == state.batch_len && state.batch_len > 0 by {
            if k < earlier.len() {
                assert(batches[k] == earlier[k]);
            } else {
                assert(batches[k] == more[k - earlier.len()]);
            }
        }
    }
    if state.games.len() == 0 {
        assert(state.games + repeated(games, passes) =~= repeated(games, passes));
        assert forall|i: int| 0 <= i < batches.flatten().len() implies #[trigger]
            batches.flatten()[i] == games[i % (games.len() as int)] by {
            assert((batches.flatten() + after.games)[i] == repeated(games, passes)[i]);
        }
    }
}

/// What each report does, for every state. Opening a file and sending a batch
/// change nothing and lead on to the next game of the open file. A game is added
/// to those that wait. The end of a file leads on to the file after it or, after
/// the last one, back to the first if a game was met since then. A batch that is
/// sent holds all games that wait, and none waits then.
pub proof fn law_reports(state: ReadState, game: Vec<u8>)
    ensures
        state.step(ReadEvent::Opened) == (state, ReadCommand::ReadGame),
        state.step(ReadEvent::Sent(true)) == (state, ReadCommand::ReadGame),
        state.step(ReadEvent::Sent(false)) == (state, ReadCommand::Finish),
        state.step(ReadEvent::StopPolled(true)) == (state, ReadCommand::Finish),
        state.step(ReadEvent::StopPolled(false)).1 == ReadCommand::Send(state.games),
        state.step(ReadEvent::StopPolled(false)).0 == (ReadState { games: Seq::empty(), ..state }),
        state.step(ReadEvent::Game(game)).0 == (ReadState {
            met_game: true,
            games: state.games + seq![game],
            ..state
        }),
        state.step(ReadEvent::Game(game)).1 == ReadCommand::PollStop <==> state.batch_len > 0
            && exists|k: int| #[trigger] (k * state.batch_len) == state.games.len() + 1,
        state.step(ReadEvent::Game(game)).1 == ReadCommand::PollStop || state.step(
            ReadEvent::Game(game),
        ).1 == ReadCommand::ReadGame,
        state.file < state.files - 1 ==> state.step(ReadEvent::EndOfFile) == (
            ReadState { file: state.file + 1, ..state },
            ReadCommand::Open(state.file + 1),
        ),
        state.file >= state.files - 1 && state.met_game ==> state.step(ReadEvent::EndOfFile) == (
            ReadState { file: 0, met_game: false, ..state },
            ReadCommand::Open(0),
        ),
        state.file >= state.files - 1 && !state.met_game ==> state.step(ReadEvent::EndOfFile) == (
            state,
            ReadCommand::Finish,
        ),
        state.files == 0 ==> state.first() == ReadCommand::Finish,
        state.files != 0 ==> state.first() == ReadCommand::Open(0),
{
    assert(state.games.push(game) =~= state.games + seq![game]);
    let count = state.games.len() + 1;
    let len = state.batch_len;
    if len > 0 {
        vstd::arithmetic::div_mod::lemma_fundamental_div_mod(count as int, len);
        assert(len * (count as int / len) == (count as int / len) * len) by (nonlinear_arith);
        if exists|k: int| #[trigger] (k * len) == count {
            let k = choose|k: int| #[trigger] (k * len) == count;
            vstd::arithmetic::div_mod::lemma_mod_multiples_basic(k, len);
        }
        if count % (len as nat) == 0 {
            assert((count as int / len) * len == count);
        }
    }
}

/// Before anything is read, no game waits and none was met, the first file is the
/// one to read, and a batch for each worker has 8192 games.
pub proof fn law_initial(files: int, batch_len: int)
    ensures
        ReadState::initial(files, batch_len).files == files,
        ReadState::initial(files, batch_len).batch_len == batch_len,
        ReadState::initial(files, batch_len).file == 0,
        !ReadState::initial(files, batch_len).met_game,
        ReadState::initial(files, batch_len).games.len() == 0,
        GAMES_PER_WORKER == 8192,
{
}

/// An action is what its command says.
pub proof fn law_actions(file: usize, games: Vec<Vec<u8>>)
    ensures
        ReadAction::Open(file)@ == ReadCommand::Open(file as int),
        ReadAction::ReadGame@ == ReadCommand::ReadGame,
        ReadAction::PollStop@ == ReadCommand::PollStop,
        ReadAction::Send(games)@ == ReadCommand::Send(games@),
        ReadAction::Finish@ == ReadCommand::Finish,
{
}

/// A reading under way, together with what its caller sees: the open file and how
/// many games were read from it, the files that were opened and the games that
/// were sent so far.
#[verifier::ext_equal]
pub ghost struct ReadRun {
    pub state: ReadState,
    /// What is done next.
    pub command: ReadCommand,
    /// The open file.
    pub open: int,
    /// The number of games that were read from it since it was opened.
    pub place: int,
    /// The files that were opened.
    pub opened: Seq<int>,
    /// The games of the batches that were sent.
    pub sent: Seq<Vec<u8>>,
}

impl ReadRun {
    /// The reading of `files` before anything is done.
    pub open spec fn start(files: Seq<Seq<Vec<u8>>>, batch_len: int) -> ReadRun {
        let state = ReadState::initial(files.len() as int, batch_len);
        ReadRun {
            state,
            command: state.first(),
            open: 0,
            place: 0,
            opened: Seq::empty(),
            sent: Seq::empty(),
        }
    }

    /// Takes the report `event`.
    pub open spec fn reports(self, event: ReadEvent) -> ReadRun {
        ReadRun { state: self.state.step(event).0, command: self.state.step(event).1, ..self }
    }

    /// Does what is to be done next on files that hold `files`, with nothing that
    /// asks to stop and a next stage that takes every batch, and reports it.
    pub open spec fn carried_out(self, files: Seq<Seq<Vec<u8>>>) -> ReadRun {
        match self.command {
            ReadCommand::Open(file) => (ReadRun {
                open: file,
                place: 0,
                opened: self.opened.push(file),
                ..self
            }).reports(ReadEvent::Opened),
            ReadCommand::ReadGame => if self.place < files[self.open].len() {
                (ReadRun { place: self.place + 1, ..self }).reports(
                    ReadEvent::Game(files[self.open][self.place]),
                )
            } else {
                self.reports(ReadEvent::EndOfFile)
            },
            ReadCommand::PollStop => self.reports(ReadEvent::StopPolled(false)),
            ReadCommand::Send(games) => (ReadRun { sent: self.sent + games, ..self }).reports(
                ReadEvent::Sent(true),
            ),
            ReadCommand::Finish => self,
        }
    }

    /// The games that were read: those sent, those about to be sent, and those
    /// that wait.
    pub open spec fn read(self) -> Seq<Vec<u8>> {
        match self.command {
            ReadCommand::Send(games) => self.sent + games + self.state.games,
            _ => self.sent + self.state.games,
        }
    }
}

/// The reading of `files` after `steps` things were done.
pub open spec fn read_run(files: Seq<Seq<Vec<u8>>>, batch_len: int, steps: nat) -> ReadRun
    decreases steps,
{
    if steps == 0 {
        ReadRun::start(files, batch_len)
    } else {
        read_run(files, batch_len, (steps - 1) as nat).carried_out(files)
    }
}

/// The number of games in the first `file` files.
spec fn games_before(files: Seq<Seq<Vec<u8>>>, file: int) -> int {
    files.take(file).flatten().len() as int
}

proof fn lemma_games_before(files: Seq<Seq<Vec<u8>>>, file: int)
    requires
        0 <= file < files.len(),
    ensures
        games_before(files, 0) == 0,
        games_before(files, file + 1) == games_before(files, file) + files[file].len(),
        games_before(files, file + 1) <= files.flatten().len(),
        games_before(files, files.len() as int) == files.flatten().len(),
        forall|p: int|
            0 <= p < files[file].len() ==> files.flatten()[games_before(files, file) + p]
                == #[trigger] files[file][p],
{
    let front = files.take(file);
    let back = files.skip(file + 1);
    assert(files.take(0).flatten() =~= Seq::<Vec<u8>>::empty());
    assert(files.take(file + 1) =~= front.push(files[file]));
    front.lemma_flatten_push(files[file]);
    assert(files =~= front.push(files[file]) + back);
    lemma_flatten_concat(front.push(files[file]), back);
    assert(files.take(files.len() as int) =~= files);
}

/// The invariant of a reading in its pass number `pass`.
spec fn on_course(
    run: ReadRun,
    files: Seq<Seq<Vec<u8>>>,
    batch_len: int,
    pass: nat,
) -> bool {
    let games = files.flatten();
    let file = run.state.file;
    let waiting = run.state.games.len();
    let reading = run.command is ReadGame || run.command is PollStop || run.command is Send;
    &&& run.state.files == files.len()
    &&& run.state.batch_len == batch_len
    &&& files.len() == 0 ==> run.command is Finish && run.read().len() == 0 && run.opened.len()
        == 0
    &&& forall|j: int|
        0 <= j < run.opened.len() ==> #[trigger] run.opened[j] == j % (files.len() as int)
    &&& files.len() > 0 ==> 0 <= file < files.len()
    &&& run.command matches ReadCommand::Open(f) ==> {
        &&& files.len() > 0
        &&& f == file
        &&& run.opened.len() == pass * files.len() + file
        &&& run.read() == repeated(games, pass) + games.take(games_before(files, file))
        &&& run.state.met_game <==> games_before(files, file) > 0
        &&& waiting < batch_len || batch_len == 0
    }
    &&& reading ==> {
        &&& files.len() > 0
        &&& run.open == file
        &&& 0 <= run.place <= files[file].len()
        &&& run.opened.len() == pass * files.len() + file + 1
        &&& run.read() == repeated(games, pass) + games.take(
            games_before(files, file) + run.place,
        )
        &&& run.state.met_game <==> games_before(files, file) + run.place > 0
    }
    &&& run.command is ReadGame ==> waiting < batch_len || batch_len == 0
    &&& run.command is PollStop ==> waiting == batch_len && batch_len > 0
    &&& run.command matches ReadCommand::Send(batch) ==> batch.len() == batch_len && waiting == 0
        && batch_len > 0
    &&& run.command is Finish ==> games.len() == 0 && run.read().len() == 0 && run.opened.len()
        == files.len()
}

proof fn lemma_on_course(files: Seq<Seq<Vec<u8>>>, batch_len: int, steps: nat) -> (pass: nat)
    requires
        batch_len >= 0,
    ensures
        on_course(read_run(files, batch_len, steps), files, batch_len, pass),
    decreases steps,
{
    let games = files.flatten();
    let n = files.len() as int;
    if steps == 0 {
        let run = read_run(files, batch_len, 0);
        lemma_repeated(games, 0);
        assert(run.read() =~= Seq::<Vec<u8>>::empty());
        if files.len() > 0 {
            lemma_games_before(files, 0);
            assert(games.take(0) =~= Seq::<Vec<u8>>::empty());
            assert(repeated(games, 0) + games.take(0) =~= Seq::<Vec<u8>>::empty());
            assert(0 * files.len() == 0) by (nonlinear_arith);
        } else {
            assert(games =~= Seq::<Vec<u8>>::empty());
        }
        0
    } else {
        let pass = lemma_on_course(files, batch_len, (steps - 1) as nat);
        let run = read_run(files, batch_len, (steps - 1) as nat);
        let next = run.carried_out(files);
        assert(next == read_run(files, batch_len, steps));
        let file = run.state.file;
        if files.len() > 0 {
            lemma_games_before(files, file);
        }
        match run.command {
            ReadCommand::Open(f) => {
                assert forall|j: int| 0 <= j < next.opened.len() implies #[trigger] next.opened[j]
                    == j % n by {
                    if j == run.opened.len() {
                        assert(pass * n == n * pass) by (nonlinear_arith);
                        vstd::arithmetic::div_mod::lemma_mod_multiples_vanish(
                            pass as int,
                            file,
                            n,
                        );
                        vstd::arithmetic::div_mod::lemma_small_mod(file as nat, n as nat);
                    } else {
                        assert(next.opened[j] == run.opened[j]);
                    }
                }
                assert(next.read() =~= run.read());
                pass
            },
            ReadCommand::ReadGame => {
                if run.place < files[run.open].len() {
                    let game = files[file][run.place];
                    let at = games_before(files, file) + run.place;
                    assert(games[at] == game);
                    assert(games.take(at + 1) =~= games.take(at).push(game));
                    assert(run.sent + run.state.games.push(game) =~= run.read().push(game));
                    assert((repeated(games, pass) + games.take(at)).push(game) =~= repeated(
                        games,
                        pass,
                    ) + games.take(at + 1));
                    let count = run.state.games.len() + 1;
                    if batch_len > 0 {
                        if count < batch_len {
                            vstd::arithmetic::div_mod::lemma_small_mod(count, batch_len as nat);
                        } else {
                            vstd::arithmetic::div_mod::lemma_mod_self_0(batch_len);
                        }
                    }
                    pass
                } else if file + 1 < files.len() {
                    assert(next.read() =~= run.read());
                    pass
                } else {
                    assert(games.take(games_before(files, file) + run.place) =~= games);
                    assert(next.read() =~= run.read());
                    if run.state.met_game {
                        lemma_repeated(games, pass);
                        assert(games.take(0) =~= Seq::<Vec<u8>>::empty());
                        assert(repeated(games, pass + 1) + games.take(0) =~= repeated(
                            games,
                            pass + 1,
                        ));
                        assert((pass + 1) * files.len() == pass * files.len() + files.len())
                            by (nonlinear_arith);
                        pass + 1
                    } else {
                        assert(games.len() == 0);
                        assert(repeated(games, pass).len() == 0) by (nonlinear_arith)
                            requires
                                repeated(games, pass).len() == pass * games.len(),
                                games.len() == 0,
                        ;
                        lemma_first_pass(files, batch_len, (steps - 1) as nat, pass);
                        assert(pass * files.len() == 0) by (nonlinear_arith)
                            requires
                                pass == 0,
                        ;
                        pass
                    }
                }
            },
            ReadCommand::PollStop => {
                assert(next.read() =~= run.read());
                pass
            },
            ReadCommand::Send(batch) => {
                assert(next.read() =~= run.read());
                pass
            },
            ReadCommand::Finish => pass,
        }
    }
}

/// Without a game in the files there is no second pass.
proof fn lemma_first_pass(files: Seq<Seq<Vec<u8>>>, batch_len: int, steps: nat, pass: nat)
    requires
        files.flatten().len() == 0,
        batch_len >= 0,
        on_course(read_run(files, batch_len, steps), files, batch_len, pass),
        read_run(files, batch_len, steps).command is ReadGame,
    ensures
        pass == 0,
{
    lemma_opened_once(files, batch_len, steps);
    let run = read_run(files, batch_len, steps);
    if pass > 0 {
        assert(pass * files.len() >= files.len()) by (nonlinear_arith)
            requires
                pass > 0,
        ;
    }
}

proof fn lemma_opened_once(files: Seq<Seq<Vec<u8>>>, batch_len: int, steps: nat)
    requires
        files.flatten().len() == 0,
        batch_len >= 0,
    ensures
        !read_run(files, batch_len, steps).state.met_game,
        read_run(files, batch_len, steps).command !is PollStop,
        read_run(files, batch_len, steps).command !is Send,
        read_run(files, batch_len, steps).state.files == files.len(),
        files.len() > 0 ==> 0 <= read_run(files, batch_len, steps).state.file < files.len(),
        read_run(files, batch_len, steps).command matches ReadCommand::Open(f) ==> f
            == read_run(files, batch_len, steps).state.file && read_run(
            files,
            batch_len,
            steps,
        ).opened.len() == f && files.len() > 0,
        read_run(files, batch_len, steps).command is ReadGame ==> files.len() > 0 && read_run(
            files,
            batch_len,
            steps,
        ).open == read_run(files, batch_len, steps).state.file && read_run(
            files,
            batch_len,
            steps,
        ).opened.len() == read_run(files, batch_len, steps).state.file + 1 && read_run(
            files,
            batch_len,
            steps,
        ).place == 0,
    decreases steps,
{
    if steps > 0 {
        lemma_opened_once(files, batch_len, (steps - 1) as nat);
        let run = read_run(files, batch_len, (steps - 1) as nat);
        if files.len() > 0 {
            lemma_games_before(files, run.state.file);
            assert(games_before(files, run.state.file) >= 0);
        }
    }
}

/// What is read of files that hold `files`, however far the reading has got. The
/// files are opened one after the other, over and over, each once in a pass. The
/// games that were read, be they sent or not, are the games of all files in order,
/// over and over: none is left out, read twice in a pass or moved. Whenever a file
/// is about to be opened, all games of the files before it were read, and no game
/// of it. Every batch has `batch_len` games, and fewer wait for the next one. The
/// reading ends only if no file holds a game.
pub proof fn law_reading(files: Seq<Seq<Vec<u8>>>, batch_len: int, steps: nat)
    requires
        batch_len >= 0,
    ensures
        ({
            let run = read_run(files, batch_len, steps);
            let games = files.flatten();
            let n = files.len() as int;
            &&& forall|j: int| 0 <= j < run.opened.len() ==> #[trigger] run.opened[j] == j % n
            &&& forall|i: int|
                0 <= i < run.read().len() ==> #[trigger] run.read()[i] == games[i
                    % (games.len() as int)]
            &&& run.command matches ReadCommand::Open(file) ==> {
                &&& file == run.opened.len() as int % n
                &&& run.read().len() == (run.opened.len() as int / n) * games.len() + files.take(
                    file,
                ).flatten().len()
            }
            &&& run.command is ReadGame ==> run.opened.len() > 0 && run.open == run.opened.last()
            &&& run.command matches ReadCommand::Send(batch) ==> batch.len() == batch_len
                && batch_len > 0
            &&& batch_len > 0 ==> run.state.games.len() <= batch_len
            &&& run.command is Finish ==> games.len() == 0
        }),
{
    let run = read_run(files, batch_len, steps);
    let games = files.flatten();
    let n = files.len() as int;
    let pass = lemma_on_course(files, batch_len, steps);
    lemma_repeated(games, pass);
    let file = run.state.file;
    if n > 0 {
        lemma_games_before(files, file);
    } else {
        assert(games =~= Seq::<Vec<u8>>::empty());
    }
    if run.command !is Finish {
        let at = if run.command is Open {
            games_before(files, file)
        } else {
            games_before(files, file) + run.place
        };
        assert(0 <= at <= games.len());
        assert(run.read() == repeated(games, pass) + games.take(at));
        assert forall|i: int| 0 <= i < run.read().len() implies #[trigger] run.read()[i]
            == games[i % (games.len() as int)] by {
            let before = (pass * games.len()) as int;
            if i >= before {
                assert(pass * games.len() == games.len() * pass) by (nonlinear_arith);
                vstd::arithmetic::div_mod::lemma_mod_multiples_vanish(
                    pass as int,
                    i - before,
                    games.len() as int,
                );
                vstd::arithmetic::div_mod::lemma_small_mod((i - before) as nat, games.len());
            }
        }
        assert(n * pass == pass * n) by (nonlinear_arith);
        if run.command is Open {
            vstd::arithmetic::div_mod::lemma_mod_multiples_vanish(pass as int, file, n);
            vstd::arithmetic::div_mod::lemma_small_mod(file as nat, n as nat);
            vstd::arithmetic::div_mod::lemma_div_multiples_vanish_fancy(pass as int, file, n);
        } else {
            vstd::arithmetic::div_mod::lemma_mod_multiples_vanish(pass as int, file, n);
            vstd::arithmetic::div_mod::lemma_small_mod(file as nat, n as nat);
        }
    }
}

proof fn lemma_next_game(files: Seq<Seq<Vec<u8>>>, batch_len: int, steps: nat, pass: nat) -> (
    later: nat)
    requires
        batch_len >= 0,
        files.flatten().len() > 0,
        on_course(read_run(files, batch_len, steps), files, batch_len, pass),
    ensures
        later > steps,
        read_run(files, batch_len, later).read().len() > read_run(
            files,
            batch_len,
            steps,
        ).read().len(),
    decreases
            (if files.flatten().len() > games_before(
                files,
                read_run(files, batch_len, steps).state.file,
            ) + (if read_run(files, batch_len, steps).command is Open {
                0
            } else {
                read_run(files, batch_len, steps).place
            }) {
                0int
            } else {
                1int
            }),
            files.len() - read_run(files, batch_len, steps).state.file,
            (match read_run(files, batch_len, steps).command {
                ReadCommand::PollStop => 3int,
                ReadCommand::Send(_) => 2int,
                ReadCommand::Open(_) => 2int,
                _ => 1int,
            }),
{
    let run = read_run(files, batch_len, steps);
    let games = files.flatten();
    if files.len() == 0 {
        assert(games =~= Seq::<Vec<u8>>::empty());
    }
    let file = run.state.file;
    lemma_games_before(files, file);
    let next = run.carried_out(files);
    assert(read_run(files, batch_len, steps + 1) == next);
    if run.command is ReadGame && run.place < files[file].len() {
        steps + 1
    } else {
        assert(next.read().len() == run.read().len());
        let now = lemma_on_course(files, batch_len, steps + 1);
        if file + 1 < files.len() {
            lemma_games_before(files, file + 1);
        }
        lemma_next_game(files, batch_len, steps + 1, now)
    }
}

proof fn lemma_many_games(files: Seq<Seq<Vec<u8>>>, batch_len: int, many: nat) -> (steps: nat)
    requires
        batch_len >= 0,
        files.flatten().len() > 0,
    ensures
        read_run(files, batch_len, steps).read().len() >= many,
    decreases many,
{
    if many == 0 {
        0
    } else {
        let steps = lemma_many_games(files, batch_len, (many - 1) as nat);
        let pass = lemma_on_course(files, batch_len, steps);
        lemma_next_game(files, batch_len, steps, pass)
    }
}

/// The reading gets on. If a file holds a game, then any number of games are read
/// and, where a batch can be complete, sent after some number of steps.
pub proof fn law_reading_gets_on(files: Seq<Seq<Vec<u8>>>, batch_len: int, many: nat)
    requires
        batch_len >= 0,
        files.flatten().len() > 0,
    ensures
        exists|steps: nat| (#[trigger] read_run(files, batch_len, steps)).read().len() >= many,
        batch_len > 0 ==> exists|steps: nat|
            (#[trigger] read_run(files, batch_len, steps)).sent.len() >= many,
{
    let steps = lemma_many_games(files, batch_len, many + batch_len as nat);
    assert(read_run(files, batch_len, steps).read().len() >= many);
    let pass = lemma_on_course(files, batch_len, steps);
    if batch_len > 0 {
        assert(read_run(files, batch_len, steps).sent.len() >= many);
    }
}

} // verus!
