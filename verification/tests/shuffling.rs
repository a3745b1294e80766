use bulletformat::ChessBoard;
use wakformat_loader::buffer::{fill_up, limit_for, ShuffleBuffer};
use wakformat_loader::rng::{seed_from_clock, seeded_rng, Rng};
use wakformat_loader::shuffle::{shuffle, shuffle_by_picks, shuffle_with};

fn board(occ: u64) -> ChessBoard {
    ChessBoard { occ, ..ChessBoard::default() }
}

fn boards(occs: &[u64]) -> Vec<ChessBoard> {
    occs.iter().map(|&occ| board(occ)).collect()
}

fn occs(boards: &[ChessBoard]) -> Vec<u64> {
    boards.iter().map(|b| b.occ).collect()
}

#[test]
fn draws_are_those_of_the_generator() {
    let mut rng = Rng::with_seed(2024);
    let mut reference = oorandom::Rand64::new(2024);
    for end in 1..500u64 {
        assert_eq!(rng.rand_range(0, end), reference.rand_range(0..end));
    }
    for start in 0..50u64 {
        let drawn = rng.rand_range(start, 1000);
        assert_eq!(drawn, reference.rand_range(start..1000));
        assert!(start <= drawn && drawn < 1000);
    }
}

#[test]
fn different_seeds_give_different_draws() {
    let mut a = Rng::with_seed(1);
    let mut b = Rng::with_seed(2);
    let from_a: Vec<u64> = (0..8).map(|_| a.rand_range(0, u64::MAX)).collect();
    let from_b: Vec<u64> = (0..8).map(|_| b.rand_range(0, u64::MAX)).collect();
    assert_ne!(from_a, from_b);
}

#[test]
fn the_clock_seeds_a_usable_generator() {
    let mut rng = seeded_rng();
    for end in 1..100u64 {
        assert!(rng.rand_range(0, end) < end);
    }
    assert_eq!(rng.rand_range(7, 8), 7);
}

#[test]
fn the_clock_gives_the_seed() {
    assert_eq!(seed_from_clock(Some(1_700_000_000_000_000)), 1_700_000_000_000_000);
    assert_eq!(seed_from_clock(None), 0);
}

#[test]
fn the_last_position_is_picked_first() {
    let mut data = boards(&[0, 1, 2, 3, 4, 5]);
    let mut same = data.clone();
    let mut rng = Rng::with_seed(5);
    let mut reference = oorandom::Rand64::new(5);
    let mut picks = vec![0usize; 6];
    for i in (0..6usize).rev() {
        picks[i] = reference.rand_range(0..i as u64 + 1) as usize;
    }
    shuffle_with(&mut data, &mut rng);
    shuffle_by_picks(&mut same, &picks);
    assert_eq!(data, same);
    assert_eq!(rng.rand_range(0, 1000), reference.rand_range(0..1000));
}

#[test]
fn picks_decide_the_order() {
    let mut data = boards(&[0, 1, 2, 3]);
    shuffle_by_picks(&mut data, &[0, 0, 1, 2]);
    assert_eq!(occs(&data), vec![3, 0, 1, 2]);

    let mut data = boards(&[0, 1, 2, 3]);
    shuffle_by_picks(&mut data, &[0, 1, 2, 3]);
    assert_eq!(occs(&data), vec![0, 1, 2, 3]);

    let mut data = boards(&[]);
    shuffle_by_picks(&mut data, &[]);
    assert!(data.is_empty());
}

#[test]
fn each_choice_of_picks_gives_its_own_order() {
    let mut seen: Vec<Vec<u64>> = Vec::new();
    for p1 in 0..2usize {
        for p2 in 0..3usize {
            for p3 in 0..4usize {
                let mut data = boards(&[10, 20, 30, 40]);
                shuffle_by_picks(&mut data, &[0, p1, p2, p3]);
                let order = occs(&data);
                assert!(!seen.contains(&order));
                seen.push(order);
            }
        }
    }
    assert_eq!(seen.len(), 24);
}

#[test]
fn a_seeded_shuffle_is_the_swaps_of_its_draws() {
    let mut data: Vec<ChessBoard> = (0..100).map(board).collect();
    let mut rng = Rng::with_seed(99);
    shuffle_with(&mut data, &mut rng);

    let mut expected: Vec<ChessBoard> = (0..100).map(board).collect();
    let mut reference = oorandom::Rand64::new(99);
    for i in (0..expected.len()).rev() {
        let idx = reference.rand_range(0..i as u64 + 1) as usize;
        expected.swap(idx, i);
    }
    assert_eq!(data, expected);
    assert_eq!(rng.rand_range(0, 77), reference.rand_range(0..77));
}

#[test]
fn a_shuffle_rearranges() {
    let mut data: Vec<ChessBoard> = (0..2000).map(|n| board(n / 2)).collect();
    shuffle(&mut data);
    let mut order = occs(&data);
    assert_ne!(order, (0..2000).map(|n| n / 2).collect::<Vec<u64>>());
    order.sort();
    assert_eq!(order, (0..2000).map(|n| n / 2).collect::<Vec<u64>>());
}

#[test]
fn shuffles_of_nothing_and_of_one() {
    let mut none: Vec<ChessBoard> = Vec::new();
    shuffle(&mut none);
    assert!(none.is_empty());
    let mut one = boards(&[8]);
    shuffle(&mut one);
    assert_eq!(occs(&one), vec![8]);
}

#[test]
fn positions_are_appended_below_the_limit() {
    let mut held = boards(&[1, 2]);
    assert_eq!(fill_up(&mut held, &boards(&[3, 4]), 5), None);
    assert_eq!(occs(&held), vec![1, 2, 3, 4]);
    assert_eq!(fill_up(&mut held, &boards(&[]), 5), None);
    assert_eq!(occs(&held), vec![1, 2, 3, 4]);
}

#[test]
fn positions_past_the_limit_are_left_over() {
    let mut held = boards(&[1, 2]);
    assert_eq!(fill_up(&mut held, &boards(&[3, 4, 5]), 3), Some(boards(&[4, 5])));
    assert_eq!(occs(&held), vec![1, 2, 3]);
    let mut held = boards(&[1]);
    assert_eq!(fill_up(&mut held, &boards(&[2, 3]), 3), Some(boards(&[])));
    assert_eq!(occs(&held), vec![1, 2, 3]);
    let mut held = boards(&[1, 2]);
    assert_eq!(fill_up(&mut held, &boards(&[3]), 2), Some(boards(&[3])));
    assert_eq!(occs(&held), vec![1, 2]);
    let mut held = boards(&[]);
    assert_eq!(fill_up(&mut held, &boards(&[]), 0), Some(boards(&[])));
}

#[test]
fn a_buffer_uses_the_space_that_it_has() {
    assert_eq!(limit_for(10, 16), 16);
    assert_eq!(limit_for(10, 10), 10);
    assert_eq!(limit_for(10, 0), 10);
    let buffer = ShuffleBuffer::new(1000);
    let mut space: Vec<ChessBoard> = Vec::new();
    space.reserve_exact(1000);
    assert_eq!(buffer.limit(), space.capacity());
}

#[test]
fn a_batch_leaves_exactly_at_the_limit() {
    let mut buffer = ShuffleBuffer::new(100);
    let limit = buffer.limit();
    for n in 1..limit as u64 {
        assert!(buffer.add(&[board(n)]).is_none());
        assert_eq!(buffer.limit(), limit);
    }
    let batch = buffer.add(&[board(limit as u64)]).unwrap();
    assert_eq!(occs(&batch), (1..=limit as u64).collect::<Vec<u64>>());
    assert_eq!(buffer.limit(), 100);
    buffer.renew();
    assert!(buffer.limit() >= 100);
    assert!(buffer.add(&[board(7)]).is_none());
}

#[test]
fn a_buffer_hands_out_full_batches_in_order() {
    let mut buffer = ShuffleBuffer::new(64);
    let mut out: Vec<u64> = Vec::new();
    let mut next: u64 = 0;
    let mut batches: usize = 0;
    for round in 0..200u64 {
        let added: Vec<ChessBoard> = (next..next + round % 17).map(board).collect();
        next += round % 17;
        let limit = buffer.limit();
        if let Some(batch) = buffer.add(&added) {
            assert_eq!(batch.len(), limit);
            out.extend(occs(&batch));
            batches += 1;
            buffer.renew();
        }
        assert!(buffer.limit() >= 64);
    }
    assert!(batches > 10);
    assert_eq!(out, (0..out.len() as u64).collect::<Vec<u64>>());
    assert!(next - (out.len() as u64) < buffer.limit() as u64);
}

#[test]
fn a_game_longer_than_the_buffer_leaves_in_several_batches() {
    let mut buffer = ShuffleBuffer::new(4);
    let game: Vec<ChessBoard> = (0..100).map(board).collect();
    let first = buffer.add(&game).unwrap();
    assert!(first.len() >= 4 && first.len() < 100);
    assert_eq!(buffer.limit(), (100 - first.len()).max(4));
    let mut out = occs(&first);
    let mut next: u64 = 100;
    while out.len() < 300 {
        buffer.renew();
        let filler: Vec<ChessBoard> = (next..next + 16).map(board).collect();
        next += 16;
        if let Some(batch) = buffer.add(&filler) {
            assert!(batch.len() >= 4);
            out.extend(occs(&batch));
        }
        assert!(next < 10_000);
    }
    assert_eq!(out, (0..out.len() as u64).collect::<Vec<u64>>());
}

#[test]
fn batches_leave_as_pieces_come_in() {
    let mut buffer = ShuffleBuffer::new(5);
    let mut batches: usize = 0;
    let mut kept: usize = 0;
    let mut most: usize = buffer.limit();
    for piece in 1..=200usize {
        let length = 1 + piece % 7;
        let added: Vec<ChessBoard> = (0..length as u64).map(board).collect();
        kept += length;
        if let Some(batch) = buffer.add(&added) {
            kept -= batch.len();
            batches += 1;
            buffer.renew();
        }
        most = most.max(buffer.limit());
        assert!(batches * most + kept.min(most - 1) >= piece);
    }
    assert!(batches >= 20);
}
