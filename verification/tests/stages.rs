use bulletformat::ChessBoard;
use wakformat_loader::convert::{convert_share, parse_into_buffer, split_shares};
use wakformat_loader::read::{ReadAction, ReadConcat, ReadEvent, GAMES_PER_WORKER};
use wakformat_loader::stages::{
    after_hand_out, ConvertAction, ConvertEvent, ConvertStage, HandOutAction, MixAction, MixEvent,
    MixStage,
};

fn board(occ: u64) -> ChessBoard {
    ChessBoard { occ, ..ChessBoard::default() }
}

fn decode(game: &Vec<u8>) -> Result<Vec<ChessBoard>, String> {
    if game.contains(&255) {
        Err(format!("bad game of {} bytes", game.len()))
    } else {
        Ok(game.iter().map(|&b| board(b as u64)).collect())
    }
}

#[test]
fn shares_are_equal_but_the_last() {
    let items: Vec<u32> = (0..10).collect();
    assert_eq!(split_shares(&items, 4), vec![&items[0..3], &items[3..6], &items[6..9], &items[9..10]]);
    assert_eq!(split_shares(&items, 5).len(), 5);
    assert_eq!(split_shares(&items, 1), vec![&items[..]]);
    assert_eq!(split_shares(&items[..9], 4), vec![&items[0..3], &items[3..6], &items[6..9]]);
    assert_eq!(split_shares(&items[..1], 8), vec![&items[0..1]]);
}

#[test]
fn shares_cover_everything() {
    for n in 1..60usize {
        let items: Vec<usize> = (0..n).collect();
        for workers in 1..20usize {
            let shares = split_shares(&items, workers);
            assert!(!shares.is_empty() && shares.len() <= workers);
            let chunks: Vec<&[usize]> = items.chunks(n.div_ceil(workers)).collect();
            assert_eq!(shares, chunks);
            assert_eq!(shares.concat(), items);
        }
    }
}

#[test]
fn a_game_is_appended() {
    let mut buffer = vec![board(9)];
    assert_eq!(parse_into_buffer(&vec![1, 2], &mut buffer, &decode), Ok(()));
    assert_eq!(buffer, vec![board(9), board(1), board(2)]);
}

#[test]
fn a_bad_game_leaves_the_buffer_as_it_is() {
    let mut buffer = vec![board(9)];
    let result = parse_into_buffer(&vec![1, 255], &mut buffer, &decode);
    assert_eq!(result, Err("bad game of 2 bytes".to_string()));
    assert_eq!(buffer, vec![board(9)]);
}

#[test]
fn a_share_is_decoded_in_order() {
    let games: Vec<Vec<u8>> = vec![vec![3, 1], vec![], vec![2]];
    let expected = vec![board(3), board(1), board(2)];
    assert_eq!(convert_share(&games, &decode), Ok(expected));
    assert_eq!(convert_share(&[], &decode), Ok(Vec::new()));
}

#[test]
fn the_first_bad_game_ends_a_share() {
    let games: Vec<Vec<u8>> = vec![vec![3], vec![255, 0, 0], vec![255]];
    assert_eq!(convert_share(&games, &decode), Err("bad game of 3 bytes".to_string()));
}

#[test]
fn reading_no_files_ends_at_once() {
    let reading = ReadConcat::new(0, 4);
    assert!(matches!(reading.start(), ReadAction::Finish));
}

#[test]
fn a_pass_without_games_ends_the_reading() {
    let mut reading = ReadConcat::new(2, 1);
    assert!(matches!(reading.start(), ReadAction::Open(0)));
    assert!(matches!(reading.step(ReadEvent::Opened), ReadAction::ReadGame));
    assert!(matches!(reading.step(ReadEvent::EndOfFile), ReadAction::Open(1)));
    assert!(matches!(reading.step(ReadEvent::Opened), ReadAction::ReadGame));
    assert!(matches!(reading.step(ReadEvent::EndOfFile), ReadAction::Finish));
}

#[test]
fn a_pass_with_a_game_is_followed_by_another() {
    let mut reading = ReadConcat::new(2, 1);
    assert!(matches!(reading.start(), ReadAction::Open(0)));
    assert!(matches!(reading.step(ReadEvent::Game(vec![1])), ReadAction::ReadGame));
    assert!(matches!(reading.step(ReadEvent::EndOfFile), ReadAction::Open(1)));
    assert!(matches!(reading.step(ReadEvent::EndOfFile), ReadAction::Open(0)));
    assert!(matches!(reading.step(ReadEvent::EndOfFile), ReadAction::Open(1)));
    assert!(matches!(reading.step(ReadEvent::EndOfFile), ReadAction::Finish));
}

#[test]
fn a_batch_spans_files_and_passes() {
    let mut reading = ReadConcat::new(2, 1);
    let per_file: usize = 3000;
    let mut read: Vec<Vec<u8>> = Vec::new();
    let mut sent: Vec<Vec<u8>> = Vec::new();
    let mut opened: Vec<usize> = Vec::new();
    let mut left: usize = 0;
    let mut batches: usize = 0;
    let mut action = reading.start();
    while batches < 3 {
        let event = match action {
            ReadAction::Open(file) => {
                opened.push(file);
                left = per_file;
                ReadEvent::Opened
            }
            ReadAction::ReadGame => {
                if left == 0 {
                    ReadEvent::EndOfFile
                } else {
                    left -= 1;
                    let game = (read.len() as u32).to_le_bytes().to_vec();
                    read.push(game.clone());
                    ReadEvent::Game(game)
                }
            }
            ReadAction::PollStop => ReadEvent::StopPolled(false),
            ReadAction::Send(batch) => {
                assert_eq!(batch.len(), GAMES_PER_WORKER);
                sent.extend(batch);
                batches += 1;
                ReadEvent::Sent(true)
            }
            ReadAction::Finish => panic!("the reading ended"),
        };
        action = reading.step(event);
    }
    assert_eq!(sent, read);
    assert_eq!(opened, vec![0, 1, 0, 1, 0, 1, 0, 1, 0]);
}

#[test]
fn more_workers_get_larger_batches() {
    let mut reading = ReadConcat::new(1, 2);
    for _ in 1..2 * GAMES_PER_WORKER {
        assert!(matches!(reading.step(ReadEvent::Game(vec![7])), ReadAction::ReadGame));
    }
    assert!(matches!(reading.step(ReadEvent::Game(vec![7])), ReadAction::PollStop));
    match reading.step(ReadEvent::StopPolled(false)) {
        ReadAction::Send(batch) => assert_eq!(batch.len(), 16384),
        _ => panic!("expected a batch"),
    }
}

#[test]
fn without_workers_no_batch_is_complete() {
    let mut reading = ReadConcat::new(1, 0);
    for _ in 0..20000 {
        assert!(matches!(reading.step(ReadEvent::Game(vec![])), ReadAction::ReadGame));
    }
}

#[test]
fn the_reading_stops_when_it_is_asked_to() {
    let mut reading = ReadConcat::new(1, 1);
    assert!(matches!(reading.step(ReadEvent::StopPolled(true)), ReadAction::Finish));
    assert!(matches!(reading.step(ReadEvent::Sent(false)), ReadAction::Finish));
    assert!(matches!(reading.step(ReadEvent::Sent(true)), ReadAction::ReadGame));
}

#[test]
fn games_are_decoded_unless_a_stop_came_in() {
    let mut stage = ConvertStage::new();
    assert!(matches!(stage.step(ConvertEvent::Games(vec![vec![1], vec![2]])), ConvertAction::PollStop));
    match stage.step(ConvertEvent::StopPolled(false)) {
        ConvertAction::Convert(games) => assert_eq!(games, vec![vec![1], vec![2]]),
        _ => panic!("expected games"),
    }
    assert!(matches!(stage.step(ConvertEvent::Converted), ConvertAction::Receive));
    assert!(matches!(stage.step(ConvertEvent::StopPolled(false)), ConvertAction::Receive));
    assert!(matches!(stage.step(ConvertEvent::Games(vec![])), ConvertAction::PollStop));
    assert!(matches!(stage.step(ConvertEvent::StopPolled(true)), ConvertAction::SignalStop));
}

#[test]
fn positions_are_mixed_until_the_buffer_is_full() {
    let mut stage = MixStage::new(100);
    let few: Vec<ChessBoard> = (0..60).map(board).collect();
    let many: Vec<ChessBoard> = (60..500).map(board).collect();
    assert!(matches!(stage.step(MixEvent::Boards(few)), MixAction::PollStop));
    assert!(matches!(stage.step(MixEvent::StopPolled(false)), MixAction::Receive));
    assert!(matches!(stage.step(MixEvent::Boards(many)), MixAction::PollStop));
    assert!(matches!(stage.step(MixEvent::StopPolled(false)), MixAction::PollStop));
    let batch = match stage.step(MixEvent::StopPolled(false)) {
        MixAction::Send(batch) => batch,
        _ => panic!("expected a batch"),
    };
    assert!(batch.len() >= 100);
    let mut occs: Vec<u64> = batch.iter().map(|b| b.occ).collect();
    let in_order: Vec<u64> = (0..batch.len() as u64).collect();
    assert_ne!(occs, in_order);
    occs.sort();
    assert_eq!(occs, in_order);
    assert!(matches!(stage.step(MixEvent::Sent(true)), MixAction::Receive));
}

#[test]
fn batches_are_consecutive_blocks() {
    let mut stage = MixStage::new(50);
    let mut next: u64 = 0;
    let mut from: u64 = 0;
    let mut batches: usize = 0;
    while batches < 20 {
        let boards: Vec<ChessBoard> = (next..next + 13).map(board).collect();
        next += 13;
        let mut action = stage.step(MixEvent::Boards(boards));
        loop {
            action = match action {
                MixAction::Receive => break,
                MixAction::PollStop => stage.step(MixEvent::StopPolled(false)),
                MixAction::Send(batch) => {
                    let mut occs: Vec<u64> = batch.iter().map(|b| b.occ).collect();
                    occs.sort();
                    assert_eq!(occs, (from..from + batch.len() as u64).collect::<Vec<u64>>());
                    assert!(batch.len() >= 50);
                    from += batch.len() as u64;
                    batches += 1;
                    stage.step(MixEvent::Sent(true))
                }
                MixAction::SignalStop => panic!("nothing asked to stop"),
            };
        }
        assert!(next < 100_000);
    }
}

#[test]
fn a_few_games_are_read_over_and_over() {
    let files: Vec<Vec<u8>> = vec![vec![1, 2], vec![], vec![3]];
    let mut reading = ReadConcat::new(files.len(), 1);
    let mut open: usize = 0;
    let mut place: usize = 0;
    let mut sent: Vec<Vec<u8>> = Vec::new();
    let mut action = reading.start();
    while sent.len() < 2 * GAMES_PER_WORKER {
        let event = match action {
            ReadAction::Open(file) => {
                open = file;
                place = 0;
                ReadEvent::Opened
            }
            ReadAction::ReadGame => {
                if place == files[open].len() {
                    ReadEvent::EndOfFile
                } else {
                    place += 1;
                    ReadEvent::Game(vec![files[open][place - 1]])
                }
            }
            ReadAction::PollStop => ReadEvent::StopPolled(false),
            ReadAction::Send(batch) => {
                sent.extend(batch);
                ReadEvent::Sent(true)
            }
            ReadAction::Finish => panic!("the reading ended"),
        };
        action = reading.step(event);
    }
    for (i, game) in sent.iter().enumerate() {
        assert_eq!(game, &vec![(i % 3) as u8 + 1]);
    }
}

#[test]
fn the_mixing_passes_a_stop_on() {
    let mut stage = MixStage::new(1);
    assert!(matches!(stage.step(MixEvent::StopPolled(false)), MixAction::Receive));
    assert!(matches!(stage.step(MixEvent::Boards(vec![board(1)])), MixAction::PollStop));
    assert!(matches!(stage.step(MixEvent::StopPolled(true)), MixAction::SignalStop));
    assert!(matches!(stage.step(MixEvent::Sent(false)), MixAction::SignalStop));
}

#[test]
fn handing_out_goes_on_until_enough() {
    assert!(matches!(after_hand_out(false), HandOutAction::Receive));
    assert!(matches!(after_hand_out(true), HandOutAction::SignalStop));
}

#[test]
fn every_position_comes_out_once() {
    let workers: usize = 2;
    let games_in_file: usize = 2 * GAMES_PER_WORKER + 10;
    let mut reading = ReadConcat::new(1, workers);
    let mut mixing = MixStage::new(5000);
    let mut next: usize = 0;
    let mut out: Vec<u64> = Vec::new();
    let mut action = reading.start();
    let mut done = false;
    while !done {
        let event = match action {
            ReadAction::Open(_) => ReadEvent::Opened,
            ReadAction::ReadGame => {
                if next == games_in_file {
                    done = true;
                    ReadEvent::EndOfFile
                } else {
                    next += 1;
                    ReadEvent::Game(vec![(next % 200) as u8; 2])
                }
            }
            ReadAction::PollStop => ReadEvent::StopPolled(false),
            ReadAction::Send(games) => {
                let mut shares = split_shares(&games, workers);
                shares.reverse();
                for share in shares {
                    let decoded = convert_share(share, &decode).unwrap();
                    let mut mix = mixing.step(MixEvent::Boards(decoded));
                    loop {
                        mix = match mix {
                            MixAction::Receive => break,
                            MixAction::PollStop => mixing.step(MixEvent::StopPolled(false)),
                            MixAction::Send(batch) => {
                                out.extend(batch.iter().map(|b| b.occ));
                                mixing.step(MixEvent::Sent(true))
                            }
                            MixAction::SignalStop => panic!("nothing asked to stop"),
                        };
                    }
                }
                ReadEvent::Sent(true)
            }
            ReadAction::Finish => panic!("the reading ended"),
        };
        action = reading.step(event);
    }
    let mut rest: Vec<u64> = Vec::new();
    let filler: Vec<ChessBoard> = vec![board(1000); 60000];
    assert!(matches!(mixing.step(MixEvent::Boards(filler)), MixAction::PollStop));
    let mut mix = mixing.step(MixEvent::StopPolled(false));
    let mut rounds: usize = 0;
    while rest.iter().filter(|&&occ| occ != 1000).count() + out.len() < 4 * GAMES_PER_WORKER {
        mix = match mix {
            MixAction::Receive => mixing.step(MixEvent::Boards(vec![board(1000); 60000])),
            MixAction::PollStop => mixing.step(MixEvent::StopPolled(false)),
            MixAction::Send(batch) => {
                rest.extend(batch.iter().map(|b| b.occ));
                mixing.step(MixEvent::Sent(true))
            }
            MixAction::SignalStop => panic!("nothing asked to stop"),
        };
        rounds += 1;
        assert!(rounds < 100);
    }
    out.extend(rest.iter().filter(|&&occ| occ != 1000));
    out.sort();
    let mut expected: Vec<u64> = Vec::new();
    for game in 1..=2 * GAMES_PER_WORKER {
        expected.push((game % 200) as u64);
        expected.push((game % 200) as u64);
    }
    expected.sort();
    assert_eq!(out, expected);
}

/// Loads files of games with one worker, a game being the numbers of its
/// positions, until `n` batches are sent.
fn load(files: &[Vec<Vec<u8>>], size: usize, n: usize) -> Vec<Vec<u64>> {
    let mut reading = ReadConcat::new(files.len(), 1);
    let mut mixing = MixStage::new(size);
    let mut open: usize = 0;
    let mut place: usize = 0;
    let mut out: Vec<Vec<u64>> = Vec::new();
    let mut action = reading.start();
    loop {
        let event = match action {
            ReadAction::Open(file) => {
                open = file;
                place = 0;
                ReadEvent::Opened
            }
            ReadAction::ReadGame => {
                if place == files[open].len() {
                    ReadEvent::EndOfFile
                } else {
                    place += 1;
                    ReadEvent::Game(files[open][place - 1].clone())
                }
            }
            ReadAction::PollStop => ReadEvent::StopPolled(false),
            ReadAction::Send(games) => {
                for share in split_shares(&games, 1) {
                    let decoded = convert_share(share, &decode).unwrap();
                    let mut mix = mixing.step(MixEvent::Boards(decoded));
                    loop {
                        mix = match mix {
                            MixAction::Receive => break,
                            MixAction::PollStop => mixing.step(MixEvent::StopPolled(false)),
                            MixAction::Send(batch) => {
                                out.push(batch.iter().map(|b| b.occ).collect());
                                if out.len() == n {
                                    return out;
                                }
                                mixing.step(MixEvent::Sent(true))
                            }
                            MixAction::SignalStop => panic!("nothing asked to stop"),
                        };
                    }
                }
                ReadEvent::Sent(true)
            }
            ReadAction::Finish => panic!("the reading ended"),
        };
        action = reading.step(event);
    }
}

#[test]
fn the_loading_never_runs_dry() {
    let files = vec![vec![vec![], vec![9]], vec![]];
    let batches = load(&files, 10_000, 6);
    assert_eq!(batches.len(), 6);
    for batch in batches {
        assert!(batch.len() >= 10_000);
        assert!(batch.iter().all(|&occ| occ == 9));
    }
}

#[test]
fn positions_come_out_once_a_pass() {
    let files: Vec<Vec<Vec<u8>>> = vec![vec![vec![0, 1], vec![2]], vec![vec![3, 4, 5, 6]]];
    let out: Vec<u64> = load(&files, 3000, 7).concat();
    let mut counts = vec![0usize; 7];
    for &occ in &out {
        counts[occ as usize] += 1;
    }
    for (occ, &count) in counts.iter().enumerate() {
        let expected = out.len() / 7 + usize::from(occ < out.len() % 7);
        assert_eq!(count, expected);
    }
}

#[test]
fn loadings_start_afresh() {
    let files: Vec<Vec<Vec<u8>>> =
        vec![(0..5000).map(|i| vec![(i % 250) as u8]).collect(), (0..4000).map(|i| vec![(i % 99) as u8; 2]).collect()];
    let mut first = load(&files, 777, 1);
    let mut again = load(&files, 777, 5);
    assert_eq!(first[0].len(), again[0].len());
    first[0].sort();
    again[0].sort();
    assert_eq!(first[0], again[0]);
}
