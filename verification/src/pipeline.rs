//! What holds of the stages together.
use vstd::prelude::*;
use vstd::seq_lib::*;
#[allow(unused_imports)]
use bulletformat::ChessBoard;
#[allow(unused_imports)]
use crate::buffer::{
    add_outcome, fill, filled_pieces, grown, law_batches_are_full, law_batches_leave,
    law_buffer_keeps_every_position, law_fill_adds_piece_by_piece, lemma_filled_pieces_add,
    lemma_filled_pieces_any_order, lemma_filled_pieces_bound, smaller,
};
#[allow(unused_imports)]
use crate::convert::{chunked, contents, decodes_to, law_shares_cover_everything, share};
#[allow(unused_imports)]
use crate::read::{
    law_pass_over_files, law_passes_repeat, lemma_repeated, repeated, ReadCommand, ReadEvent,
    ReadState, GAMES_PER_WORKER,
};
#[allow(unused_imports)]
use crate::stages::{
    convert_step, hand_out_step, ConvertAction, ConvertEvent, HandOutAction, MixCommand, MixEvent,
    MixState,
};

verus! {

broadcast use vstd::multiset::group_multiset_axioms;

/// The positions of `games` in order, where `decode` says which positions a game
/// gives.
pub open spec fn positions<G, T>(games: Seq<G>, decode: spec_fn(G) -> Seq<T>) -> Seq<T> {
    games.map_values(decode).flatten()
}

/// What the workers send on for a batch of games: the positions of each share.
pub open spec fn worker_buffers<G, T>(
    batch: Seq<G>,
    workers: nat,
    decode: spec_fn(G) -> Seq<T>,
) -> Seq<Seq<T>> {
    chunked(batch, share(batch.len(), workers)).map_values(
        |games: Seq<G>| positions(games, decode),
    )
}

/// What the workers send on for several batches of games.
pub open spec fn all_worker_buffers<G, T>(
    batches: Seq<Seq<G>>,
    workers: nat,
    decode: spec_fn(G) -> Seq<T>,
) -> Seq<Seq<T>> {
    batches.map_values(|batch: Seq<G>| worker_buffers(batch, workers, decode)).flatten()
}

/// The sequences are rearrangements of each other, one by one.
pub open spec fn rearranged<T>(s: Seq<Seq<T>>, t: Seq<Seq<T>>) -> bool {
    &&& s.len() == t.len()
    &&& forall|k: int| 0 <= k < s.len() ==> (#[trigger] s[k]).to_multiset() == t[k].to_multiset()
}

proof fn lemma_positions_add<G, T>(a: Seq<G>, b: Seq<G>, decode: spec_fn(G) -> Seq<T>)
    ensures
        positions(a + b, decode) == positions(a, decode) + positions(b, decode),
{
    assert((a + b).map_values(decode) =~= a.map_values(decode) + b.map_values(decode));
    lemma_flatten_concat(a.map_values(decode), b.map_values(decode));
}

proof fn lemma_positions_of_parts<G, T>(parts: Seq<Seq<G>>, decode: spec_fn(G) -> Seq<T>)
    ensures
        parts.map_values(|games: Seq<G>| positions(games, decode)).flatten() == positions(
            parts.flatten(),
            decode,
        ),
    decreases parts.len(),
{
    let each = |games: Seq<G>| positions(games, decode);
    if parts.len() == 0 {
        assert(parts.map_values(each) =~= Seq::<Seq<T>>::empty());
        assert(parts.flatten() =~= Seq::<G>::empty());
        assert(Seq::<G>::empty().map_values(decode) =~= Seq::<Seq<T>>::empty());
    } else {
        let init = parts.drop_last();
        let last = parts.last();
        lemma_positions_of_parts(init, decode);
        assert(parts =~= init.push(last));
        init.lemma_flatten_push(last);
        lemma_positions_add(init.flatten(), last, decode);
        init.map_values(each).lemma_flatten_push(each(last));
        assert(parts.map_values(each) =~= init.map_values(each).push(each(last)));
    }
}

proof fn lemma_all_worker_buffers<G, T>(
    batches: Seq<Seq<G>>,
    workers: nat,
    decode: spec_fn(G) -> Seq<T>,
)
    requires
        workers > 0,
        forall|k: int| 0 <= k < batches.len() ==> (#[trigger] batches[k]).len() > 0,
    ensures
        all_worker_buffers(batches, workers, decode).flatten() == positions(
            batches.flatten(),
            decode,
        ),
    decreases batches.len(),
{
    let each = |batch: Seq<G>| worker_buffers(batch, workers, decode);
    if batches.len() == 0 {
        assert(batches.map_values(each) =~= Seq::<Seq<Seq<T>>>::empty());
        assert(batches.flatten() =~= Seq::<G>::empty());
        assert(Seq::<G>::empty().map_values(decode) =~= Seq::<Seq<T>>::empty());
    } else {
        let init = batches.drop_last();
        let last = batches.last();
        assert(last == batches[batches.len() - 1]);
        assert forall|k: int| 0 <= k < init.len() implies (#[trigger] init[k]).len() > 0 by {
            assert(init[k] == batches[k]);
        }
        lemma_all_worker_buffers(init, workers, decode);
        assert(batches =~= init.push(last));
        init.lemma_flatten_push(last);
        init.map_values(each).lemma_flatten_push(each(last));
        assert(batches.map_values(each) =~= init.map_values(each).push(each(last)));
        lemma_flatten_concat(init.map_values(each).flatten(), each(last));
        law_shares_cover_everything(last, workers);
        lemma_positions_of_parts(chunked(last, share(last.len(), workers)), decode);
        lemma_positions_add(init.flatten(), last, decode);
    }
}

proof fn lemma_flatten_rearranged<T>(s: Seq<Seq<T>>, t: Seq<Seq<T>>)
    requires
        rearranged(s, t),
    ensures
        s.flatten().to_multiset() == t.flatten().to_multiset(),
    decreases s.len(),
{
    if s.len() == 0 {
        assert(s =~= t);
    } else {
        let s0 = s.drop_last();
        let t0 = t.drop_last();
        assert forall|k: int| 0 <= k < s0.len() implies (#[trigger] s0[k]).to_multiset()
            == t0[k].to_multiset() by {
            assert(s0[k] == s[k]);
            assert(t0[k] == t[k]);
        }
        lemma_flatten_rearranged(s0, t0);
        assert(s =~= s0.push(s.last()));
        assert(t =~= t0.push(t.last()));
        s0.lemma_flatten_push(s.last());
        t0.lemma_flatten_push(t.last());
        assert(s[s.len() - 1].to_multiset() == t[s.len() - 1].to_multiset());
        lemma_multiset_commutative(s0.flatten(), s.last());
        lemma_multiset_commutative(t0.flatten(), t.last());
    }
}

proof fn lemma_flatten_any_order<T>(s: Seq<Seq<T>>, t: Seq<Seq<T>>)
    requires
        s.to_multiset() == t.to_multiset(),
    ensures
        s.flatten().to_multiset() == t.flatten().to_multiset(),
    decreases s.len(),
{
    to_multiset_len(s);
    to_multiset_len(t);
    if s.len() == 0 {
        assert(s =~= t);
    } else {
        let s0 = s.drop_last();
        let last = s.last();
        assert(s =~= s0.push(last));
        s0.lemma_flatten_push(last);
        to_multiset_build(s0, last);
        to_multiset_contains(s, last);
        to_multiset_contains(t, last);
        assert(s[s.len() - 1] == last);
        assert(s.contains(last));
        let i = choose|i: int| 0 <= i < t.len() && t[i] == last;
        to_multiset_remove(t, i);
        assert(s0.to_multiset() =~= s.to_multiset().remove(last));
        lemma_flatten_any_order(s0, t.remove(i));
        let front = t.take(i);
        let back = t.skip(i + 1);
        assert(t.remove(i) =~= front + back);
        assert(t =~= front.push(last) + back);
        lemma_flatten_concat(front, back);
        lemma_flatten_concat(front.push(last), back);
        front.lemma_flatten_push(last);
        lemma_multiset_commutative(front.flatten(), back.flatten());
        lemma_multiset_commutative(front.flatten() + last, back.flatten());
        lemma_multiset_commutative(front.flatten(), last);
        lemma_multiset_commutative(s0.flatten(), last);
        assert(s.flatten().to_multiset() =~= t.flatten().to_multiset());
    }
}

/// The steps that the mixing takes from `before` to `after` when `boards` come in,
/// nothing asks it to stop and a batch can be sent.
pub open spec fn mixes_through(
    before: MixState,
    boards: Vec<ChessBoard>,
    came: MixState,
    mixed: MixState,
    command: MixCommand,
    sending: MixState,
    after: MixState,
    sent: Option<Seq<ChessBoard>>,
) -> bool {
    &&& before.steps_to(MixEvent::Boards(boards), came, MixCommand::PollStop)
    &&& came.steps_to(MixEvent::StopPolled(false), mixed, command)
    &&& match sent {
        None => command == MixCommand::Receive && after == mixed,
        Some(batch) => {
            &&& command == MixCommand::PollStop
            &&& mixed.steps_to(MixEvent::StopPolled(false), sending, MixCommand::Send(batch))
            &&& sending.steps_to(MixEvent::Sent(true), after, MixCommand::Receive)
        },
    }
}

/// The mixing can go from `before` to `after` when `boards` come in, nothing asks
/// it to stop and a batch can be sent; `sent` is the batch that it sends, if any.
pub open spec fn mixes(
    before: MixState,
    boards: Vec<ChessBoard>,
    after: MixState,
    sent: Option<Seq<ChessBoard>>,
) -> bool {
    exists|came: MixState, mixed: MixState, command: MixCommand, sending: MixState| #[trigger]
        mixes_through(before, boards, came, mixed, command, sending, after, sent)
}

/// The mixing goes through `states` as `pieces` come in one after the other, and
/// sends the batches in `sent`.
pub open spec fn mix_run(
    states: Seq<MixState>,
    pieces: Seq<Vec<ChessBoard>>,
    sent: Seq<Option<Seq<ChessBoard>>>,
) -> bool {
    &&& states.len() == pieces.len() + 1
    &&& sent.len() == pieces.len()
    &&& states.first().ready is None
    &&& states.first().buffer.well_formed()
    &&& forall|i: int|
        0 <= i < pieces.len() ==> mixes(states[i], #[trigger] pieces[i], states[i + 1], sent[i])
}

/// The batches among `sent`.
pub open spec fn batches_in<T>(sent: Seq<Option<Seq<T>>>) -> Seq<Seq<T>>
    decreases sent.len(),
{
    if sent.len() == 0 {
        Seq::empty()
    } else {
        match sent.last() {
            Some(batch) => batches_in(sent.drop_last()).push(batch),
            None => batches_in(sent.drop_last()),
        }
    }
}

/// The limits of the mixing's buffer before each of the first `n` pieces comes
/// in.
pub open spec fn limits_of(states: Seq<MixState>, n: nat) -> Seq<int> {
    Seq::new(n, |i: int| states[i].buffer.limit as int)
}

proof fn lemma_mixes(
    before: MixState,
    boards: Vec<ChessBoard>,
    after: MixState,
    sent: Option<Seq<ChessBoard>>,
) -> (batch: Option<Seq<ChessBoard>>)
    requires
        before.ready is None,
        mixes(before, boards, after, sent),
    ensures
        add_outcome(
            before.buffer.boards,
            boards@,
            before.buffer.limit as int,
            batch,
            after.buffer.boards,
        ),
        batch is Some <==> sent is Some,
        sent is Some ==> sent->0.to_multiset() == batch->0.to_multiset(),
        sent is None ==> after.buffer.limit == before.buffer.limit,
        after.ready is None,
        after.buffer.size == before.buffer.size,
        after.buffer.well_formed(),
{
    let (came, mixed, command, sending) = choose|
        came: MixState,
        mixed: MixState,
        command: MixCommand,
        sending: MixState,
    | #[trigger]
        mixes_through(before, boards, came, mixed, command, sending, after, sent);
    assert(came.can_take_in(boards@, mixed, command));
    let seed = choose|seed: u128| #[trigger] came.takes_in(boards@, seed, mixed, command);
    let all = before.buffer.boards + boards@;
    if sent is None {
        None
    } else {
        Some(all.take(before.buffer.limit as int))
    }
}

proof fn lemma_mix_run(
    states: Seq<MixState>,
    pieces: Seq<Vec<ChessBoard>>,
    sent: Seq<Option<Seq<ChessBoard>>>,
)
    requires
        mix_run(states, pieces, sent),
    ensures
        forall|i: int|
            0 <= i < states.len() ==> (#[trigger] states[i]).buffer.limit
                >= states.first().buffer.size,
        fill(states.first().buffer.boards, contents(pieces), limits_of(states, pieces.len())).1
            == states.last().buffer.boards,
        rearranged(
            batches_in(sent),
            fill(states.first().buffer.boards, contents(pieces), limits_of(states, pieces.len())).0,
        ),
        batches_in(sent).len() == 0 ==> states.last().buffer.limit == states.first().buffer.limit
            && states.last().buffer.boards == states.first().buffer.boards + contents(
            pieces,
        ).flatten() && (pieces.len() > 0 ==> states.last().buffer.boards.len()
            < states.first().buffer.limit),
        states.last().ready is None,
        states.last().buffer.size == states.first().buffer.size,
        states.last().buffer.well_formed(),
    decreases pieces.len(),
{
    let held = states.first().buffer.boards;
    let limits = limits_of(states, pieces.len());
    if pieces.len() == 0 {
        assert(contents(pieces).flatten() =~= Seq::<ChessBoard>::empty());
        assert(held + contents(pieces).flatten() =~= held);
    } else {
        let n = pieces.len() - 1;
        let states0 = states.drop_last();
        let pieces0 = pieces.drop_last();
        let sent0 = sent.drop_last();
        assert forall|i: int| 0 <= i < pieces0.len() implies mixes(
            states0[i],
            #[trigger] pieces0[i],
            states0[i + 1],
            sent0[i],
        ) by {
            assert(pieces0[i] == pieces[i]);
        }
        lemma_mix_run(states0, pieces0, sent0);
        assert(pieces[n] == pieces.last());
        assert(states0.last() == states[n]);
        let batch = lemma_mixes(states[n], pieces[n], states[n + 1], sent[n]);
        let limits0 = limits_of(states0, pieces0.len());
        assert(limits =~= limits0.push(states[n].buffer.limit as int));
        law_fill_adds_piece_by_piece(
            held,
            contents(pieces0),
            limits0,
            pieces[n]@,
            states[n].buffer.limit as int,
            batch,
            states[n + 1].buffer.boards,
        );
        assert(contents(pieces) =~= contents(pieces0).push(pieces[n]@));
        contents(pieces0).lemma_flatten_push(pieces[n]@);
        assert((held + contents(pieces0).flatten()) + pieces[n]@ =~= held + contents(
            pieces,
        ).flatten());
        let now = batches_in(sent);
        let full = fill(held, contents(pieces), limits).0;
        assert forall|k: int| 0 <= k < now.len() implies (#[trigger] now[k]).to_multiset()
            == full[k].to_multiset() by {
            if k < batches_in(sent0).len() {
                assert(now[k] == batches_in(sent0)[k]);
            }
        }
        assert forall|i: int| 0 <= i < states.len() implies (#[trigger] states[i]).buffer.limit
            >= states.first().buffer.size by {
            if i < states0.len() {
                assert(states0[i] == states[i]);
            }
        }
    }
}

proof fn lemma_sent_lengths(
    states: Seq<MixState>,
    pieces: Seq<Vec<ChessBoard>>,
    sent: Seq<Option<Seq<ChessBoard>>>,
)
    requires
        mix_run(states, pieces, sent),
    ensures
        forall|i: int|
            0 <= i < sent.len() && (#[trigger] sent[i]) is Some ==> sent[i]->0.len()
                == states[i].buffer.limit,
        batches_in(sent).len() > 0 ==> batches_in(sent)[0].len() == states.first().buffer.limit,
    decreases pieces.len(),
{
    if pieces.len() > 0 {
        let n = pieces.len() - 1;
        let states0 = states.drop_last();
        let pieces0 = pieces.drop_last();
        let sent0 = sent.drop_last();
        assert forall|i: int| 0 <= i < pieces0.len() implies mixes(
            states0[i],
            #[trigger] pieces0[i],
            states0[i + 1],
            sent0[i],
        ) by {
            assert(pieces0[i] == pieces[i]);
        }
        lemma_sent_lengths(states0, pieces0, sent0);
        lemma_mix_run(states0, pieces0, sent0);
        assert(pieces[n] == pieces.last());
        assert(states0.last() == states[n]);
        let batch = lemma_mixes(states[n], pieces[n], states[n + 1], sent[n]);
        if sent[n] is Some {
            to_multiset_len(sent[n]->0);
            to_multiset_len(batch->0);
        }
        assert forall|i: int| 0 <= i < sent.len() && (#[trigger] sent[i]) is Some implies sent[i]
            ->0.len() == states[i].buffer.limit by {
            if i < n {
                assert(sent0[i] == sent[i]);
                assert(states0[i] == states[i]);
            }
        }
    }
}

/// Every batch that the mixing sends is exactly as long as the limit of the
/// buffer that it leaves, which is at least the size that the buffer was made for.
pub proof fn law_sent_batches_are_full(
    states: Seq<MixState>,
    pieces: Seq<Vec<ChessBoard>>,
    sent: Seq<Option<Seq<ChessBoard>>>,
)
    requires
        mix_run(states, pieces, sent),
    ensures
        forall|i: int|
            0 <= i < sent.len() && (#[trigger] sent[i]) is Some ==> sent[i]->0.len()
                == states[i].buffer.limit,
        forall|k: int|
            0 <= k < batches_in(sent).len() ==> limits_of(states, pieces.len()).contains(
                (#[trigger] batches_in(sent)[k]).len() as int,
            ) && batches_in(sent)[k].len() >= states.first().buffer.size,
{
    lemma_mix_run(states, pieces, sent);
    lemma_sent_lengths(states, pieces, sent);
    let limits = limits_of(states, pieces.len());
    let held = states.first().buffer.boards;
    assert forall|i: int| 0 <= i < limits.len() implies #[trigger] limits[i]
        >= states.first().buffer.size by {
        assert(limits[i] == states[i].buffer.limit);
    }
    law_batches_are_full(held, contents(pieces), limits, states.first().buffer.size as int);
    let full = fill(held, contents(pieces), limits).0;
    assert forall|k: int| 0 <= k < batches_in(sent).len() implies limits.contains(
        (#[trigger] batches_in(sent)[k]).len() as int,
    ) && batches_in(sent)[k].len() >= states.first().buffer.size by {
        to_multiset_len(batches_in(sent)[k]);
        to_multiset_len(full[k]);
    }
}

proof fn lemma_flatten_part<T>(s: Seq<Seq<T>>, k: int)
    requires
        0 <= k < s.len(),
    ensures
        s.take(k).flatten().len() + s[k].len() <= s.flatten().len(),
        s.flatten().subrange(
            s.take(k).flatten().len() as int,
            (s.take(k).flatten().len() + s[k].len()) as int,
        ) == s[k],
{
    let front = s.take(k);
    let back = s.skip(k + 1);
    assert(s =~= front.push(s[k]) + back);
    lemma_flatten_concat(front.push(s[k]), back);
    front.lemma_flatten_push(s[k]);
    assert(s.flatten().subrange(
        front.flatten().len() as int,
        (front.flatten().len() + s[k].len()) as int,
    ) =~= s[k]);
}

proof fn lemma_rearranged_lengths<T>(s: Seq<Seq<T>>, t: Seq<Seq<T>>, k: int)
    requires
        rearranged(s, t),
        0 <= k <= s.len(),
    ensures
        s.take(k).flatten().len() == t.take(k).flatten().len(),
{
    assert forall|i: int| 0 <= i < s.take(k).len() implies (#[trigger] s.take(k)[i]).to_multiset()
        == t.take(k)[i].to_multiset() by {
        assert(s.take(k)[i] == s[i]);
        assert(t.take(k)[i] == t[i]);
    }
    lemma_flatten_rearranged(s.take(k), t.take(k));
    to_multiset_len(s.take(k).flatten());
    to_multiset_len(t.take(k).flatten());
}

/// Positions are mixed only with their neighbours. Take what the buffer held and
/// all that came in, in the order of arrival. The first batch rearranges the
/// first positions of it, each batch those that follow the ones before, and what
/// the buffer holds at the end are the last positions, in order.
pub proof fn law_batches_are_consecutive_blocks(
    states: Seq<MixState>,
    pieces: Seq<Vec<ChessBoard>>,
    sent: Seq<Option<Seq<ChessBoard>>>,
)
    requires
        mix_run(states, pieces, sent),
    ensures
        ({
            let arrived = states.first().buffer.boards + contents(pieces).flatten();
            let batches = batches_in(sent);
            &&& batches.flatten().len() <= arrived.len()
            &&& states.last().buffer.boards == arrived.skip(batches.flatten().len() as int)
            &&& forall|k: int|
                0 <= k < batches.len() ==> {
                    let from = batches.take(k).flatten().len() as int;
                    &&& from + batches[k].len() <= arrived.len()
                    &&& (#[trigger] batches[k]).to_multiset() == arrived.subrange(
                        from,
                        from + batches[k].len(),
                    ).to_multiset()
                }
        }),
{
    lemma_mix_run(states, pieces, sent);
    let limits = limits_of(states, pieces.len());
    let held = states.first().buffer.boards;
    let arrived = held + contents(pieces).flatten();
    let batches = batches_in(sent);
    let (full, kept) = fill(held, contents(pieces), limits);
    law_buffer_keeps_every_position(held, contents(pieces), limits);
    lemma_rearranged_lengths(batches, full, batches.len() as int);
    assert(batches.take(batches.len() as int) =~= batches);
    assert(full.take(batches.len() as int) =~= full);
    assert(arrived.skip(full.flatten().len() as int) =~= kept);
    assert forall|k: int| 0 <= k < batches.len() implies {
        let from = batches.take(k).flatten().len() as int;
        &&& from + batches[k].len() <= arrived.len()
        &&& (#[trigger] batches[k]).to_multiset() == arrived.subrange(
            from,
            from + batches[k].len(),
        ).to_multiset()
    } by {
        let from = batches.take(k).flatten().len() as int;
        lemma_rearranged_lengths(batches, full, k);
        lemma_flatten_part(full, k);
        to_multiset_len(batches[k]);
        to_multiset_len(full[k]);
        assert(arrived.subrange(from, from + full[k].len()) =~= full.flatten().subrange(
            from,
            from + full[k].len(),
        ));
    }
}

/// The mixing sends a batch once the positions that it held and those that came
/// in reach the limit of its buffer, which stays the same until then.
pub proof fn law_full_buffer_is_sent(
    states: Seq<MixState>,
    pieces: Seq<Vec<ChessBoard>>,
    sent: Seq<Option<Seq<ChessBoard>>>,
)
    requires
        mix_run(states, pieces, sent),
        pieces.len() > 0,
        states.first().buffer.boards.len() + contents(pieces).flatten().len()
            >= states.first().buffer.limit,
    ensures
        batches_in(sent).len() > 0,
{
    lemma_mix_run(states, pieces, sent);
}

/// The mixing keeps sending. If its buffer is never full at more than `most`
/// positions, then the batches, at `most` pieces each, and the positions that it
/// keeps, which stand for at most `most - 1` pieces, account for all pieces that
/// came in and were not empty.
pub proof fn law_mixing_keeps_sending(
    states: Seq<MixState>,
    pieces: Seq<Vec<ChessBoard>>,
    sent: Seq<Option<Seq<ChessBoard>>>,
    most: int,
)
    requires
        mix_run(states, pieces, sent),
        most >= 1,
        forall|i: int| 0 <= i < states.len() ==> (#[trigger] states[i]).buffer.limit <= most,
    ensures
        batches_in(sent).len() * most + smaller(
            states.last().buffer.boards.len() as int,
            most - 1,
        ) >= filled_pieces(contents(pieces)),
{
    lemma_mix_run(states, pieces, sent);
    let limits = limits_of(states, pieces.len());
    assert forall|i: int| 0 <= i < limits.len() implies 0 <= #[trigger] limits[i] <= most by {
        assert(limits[i] == states[i].buffer.limit);
    }
    law_batches_leave(states.first().buffer.boards, contents(pieces), limits, most);
}

proof fn lemma_positions_once(
    batches: Seq<Seq<Vec<u8>>>,
    waiting: Seq<Vec<u8>>,
    games: Seq<Vec<u8>>,
    workers: nat,
    decode: spec_fn(Vec<u8>) -> Seq<ChessBoard>,
    states: Seq<MixState>,
    pieces: Seq<Vec<ChessBoard>>,
    sent: Seq<Option<Seq<ChessBoard>>>,
)
    requires
        workers > 0,
        batches.flatten() + waiting == games,
        forall|k: int| 0 <= k < batches.len() ==> (#[trigger] batches[k]).len() > 0,
        mix_run(states, pieces, sent),
        contents(pieces).to_multiset() == all_worker_buffers(
            batches,
            workers,
            decode,
        ).to_multiset(),
    ensures
        batches_in(sent).flatten().to_multiset().add(
            states.last().buffer.boards.to_multiset(),
        ).add(positions(waiting, decode).to_multiset())
            == states.first().buffer.boards.to_multiset().add(
            positions(games, decode).to_multiset(),
        ),
{
    lemma_all_worker_buffers(batches, workers, decode);
    let arrived = contents(pieces);
    lemma_flatten_any_order(arrived, all_worker_buffers(batches, workers, decode));
    let held = states.first().buffer.boards;
    let kept = states.last().buffer.boards;
    let limits = limits_of(states, pieces.len());
    lemma_mix_run(states, pieces, sent);
    law_buffer_keeps_every_position(held, arrived, limits);
    let full = fill(held, arrived, limits).0;
    lemma_flatten_rearranged(batches_in(sent), full);
    lemma_multiset_commutative(full.flatten(), kept);
    lemma_multiset_commutative(held, arrived.flatten());
    lemma_positions_add(batches.flatten(), waiting, decode);
    lemma_multiset_commutative(positions(batches.flatten(), decode), positions(waiting, decode));
    assert(batches_in(sent).flatten().to_multiset().add(kept.to_multiset()).add(
        positions(waiting, decode).to_multiset(),
    ) =~= held.to_multiset().add(positions(games, decode).to_multiset()));
}

/// Every position of every game comes out exactly once. Take a pass over the
/// files, have the batches of games decoded by the workers, let what the workers
/// send on arrive in any order, and mix it. Then the positions in the batches
/// that were sent, those still in the buffer, and those of the games that wait for
/// the next batch are, taken together, the positions that the buffer held before
/// and those of the games that waited before and of all games in the files.
pub proof fn law_every_position_comes_out_once(
    reading: ReadState,
    files: Seq<Seq<Vec<u8>>>,
    workers: nat,
    decode: spec_fn(Vec<u8>) -> Seq<ChessBoard>,
    states: Seq<MixState>,
    pieces: Seq<Vec<ChessBoard>>,
    sent: Seq<Option<Seq<ChessBoard>>>,
)
    requires
        workers > 0,
        reading.batch_len == GAMES_PER_WORKER * workers,
        reading.games.len() < reading.batch_len,
        reading.files == files.len(),
        reading.file == 0,
        !reading.met_game,
        mix_run(states, pieces, sent),
        contents(pieces).to_multiset() == all_worker_buffers(
            reading.read_files(files, files.len()).1,
            workers,
            decode,
        ).to_multiset(),
    ensures
        batches_in(sent).flatten().to_multiset().add(
            states.last().buffer.boards.to_multiset(),
        ).add(
            positions(
                reading.read_files(files, files.len()).0.games,
                decode,
            ).to_multiset(),
        ) == states.first().buffer.boards.to_multiset().add(
            positions(reading.games + files.flatten(), decode).to_multiset(),
        ),
{
    law_pass_over_files(reading, files, files.len());
    assert(files.take(files.len() as int) =~= files);
    let (after, batches, command) = reading.read_files(files, files.len());
    lemma_positions_once(
        batches,
        after.games,
        reading.games + files.flatten(),
        workers,
        decode,
        states,
        pieces,
        sent,
    );
}

/// Over several passes every position comes out once for each pass.
pub proof fn law_every_position_comes_out_once_a_pass(
    reading: ReadState,
    files: Seq<Seq<Vec<u8>>>,
    passes: nat,
    workers: nat,
    decode: spec_fn(Vec<u8>) -> Seq<ChessBoard>,
    states: Seq<MixState>,
    pieces: Seq<Vec<ChessBoard>>,
    sent: Seq<Option<Seq<ChessBoard>>>,
)
    requires
        workers > 0,
        reading.batch_len == GAMES_PER_WORKER * workers,
        reading.games.len() < reading.batch_len,
        reading.files == files.len(),
        reading.file == 0,
        !reading.met_game,
        files.flatten().len() > 0,
        mix_run(states, pieces, sent),
        contents(pieces).to_multiset() == all_worker_buffers(
            reading.read_passes(files, passes).1,
            workers,
            decode,
        ).to_multiset(),
    ensures
        batches_in(sent).flatten().to_multiset().add(
            states.last().buffer.boards.to_multiset(),
        ).add(
            positions(reading.read_passes(files, passes).0.games, decode).to_multiset(),
        ) == states.first().buffer.boards.to_multiset().add(
            positions(
                reading.games + repeated(files.flatten(), passes),
                decode,
            ).to_multiset(),
        ),
{
    law_passes_repeat(reading, files, passes);
    let (after, batches, command) = reading.read_passes(files, passes);
    lemma_positions_once(
        batches,
        after.games,
        reading.games + repeated(files.flatten(), passes),
        workers,
        decode,
        states,
        pieces,
        sent,
    );
}

/// The number of games that give a position.
pub open spec fn fruitful<G, T>(games: Seq<G>, decode: spec_fn(G) -> Seq<T>) -> nat {
    filled_pieces(games.map_values(decode))
}

proof fn lemma_fruitful_add<G, T>(a: Seq<G>, b: Seq<G>, decode: spec_fn(G) -> Seq<T>)
    ensures
        fruitful(a + b, decode) == fruitful(a, decode) + fruitful(b, decode),
{
    assert((a + b).map_values(decode) =~= a.map_values(decode) + b.map_values(decode));
    lemma_filled_pieces_add(a.map_values(decode), b.map_values(decode));
}

proof fn lemma_fruitful_repeated<G, T>(games: Seq<G>, times: nat, decode: spec_fn(G) -> Seq<T>)
    requires
        fruitful(games, decode) > 0,
    ensures
        fruitful(repeated(games, times), decode) >= times,
    decreases times,
{
    if times > 0 {
        let fewer = (times - 1) as nat;
        lemma_fruitful_repeated(games, fewer, decode);
        lemma_repeated(games, fewer);
        lemma_fruitful_add(repeated(games, fewer), games, decode);
    }
}

proof fn lemma_fruitful_parts<G, T>(
    parts: Seq<Seq<G>>,
    decode: spec_fn(G) -> Seq<T>,
    longest: nat,
)
    requires
        forall|k: int| 0 <= k < parts.len() ==> (#[trigger] parts[k]).len() <= longest,
    ensures
        fruitful(parts.flatten(), decode) <= longest * filled_pieces(
            parts.map_values(|games: Seq<G>| positions(games, decode)),
        ),
    decreases parts.len(),
{
    let each = |games: Seq<G>| positions(games, decode);
    if parts.len() == 0 {
        assert(parts.flatten().map_values(decode) =~= Seq::<Seq<T>>::empty());
        assert(longest * 0 == 0) by (nonlinear_arith);
        assert(parts.map_values(each) =~= Seq::<Seq<T>>::empty());
    } else {
        let init = parts.drop_last();
        let last = parts.last();
        assert(last == parts[parts.len() - 1]);
        assert forall|k: int| 0 <= k < init.len() implies (#[trigger] init[k]).len()
            <= longest by {
            assert(init[k] == parts[k]);
        }
        lemma_fruitful_parts(init, decode, longest);
        assert(parts =~= init.push(last));
        init.lemma_flatten_push(last);
        lemma_fruitful_add(init.flatten(), last, decode);
        lemma_filled_pieces_bound(last.map_values(decode));
        assert(parts.map_values(each) =~= init.map_values(each) + seq![each(last)]);
        lemma_filled_pieces_add(init.map_values(each), seq![each(last)]);
        assert(filled_pieces(seq![each(last)].drop_last()) == 0);
        assert(seq![each(last)].last() == positions(last, decode));
        let before = filled_pieces(init.map_values(each));
        assert(longest * (before + 1) == longest * before + longest) by (nonlinear_arith);
    }
}

proof fn lemma_fruitful_batches<G, T>(
    batches: Seq<Seq<G>>,
    workers: nat,
    decode: spec_fn(G) -> Seq<T>,
    longest: nat,
)
    requires
        workers > 0,
        forall|k: int| 0 <= k < batches.len() ==> 0 < (#[trigger] batches[k]).len() <= longest,
    ensures
        fruitful(batches.flatten(), decode) <= longest * filled_pieces(
            all_worker_buffers(batches, workers, decode),
        ),
    decreases batches.len(),
{
    let each = |batch: Seq<G>| worker_buffers(batch, workers, decode);
    if batches.len() == 0 {
        assert(batches.flatten().map_values(decode) =~= Seq::<Seq<T>>::empty());
        assert(batches.map_values(each) =~= Seq::<Seq<Seq<T>>>::empty());
        assert(longest * 0 == 0) by (nonlinear_arith);
    } else {
        let init = batches.drop_last();
        let last = batches.last();
        assert(last == batches[batches.len() - 1]);
        assert forall|k: int| 0 <= k < init.len() implies 0 < (#[trigger] init[k]).len()
            <= longest by {
            assert(init[k] == batches[k]);
        }
        lemma_fruitful_batches(init, workers, decode, longest);
        assert(batches =~= init.push(last));
        init.lemma_flatten_push(last);
        init.map_values(each).lemma_flatten_push(each(last));
        assert(batches.map_values(each) =~= init.map_values(each).push(each(last)));
        lemma_fruitful_add(init.flatten(), last, decode);
        let parts = chunked(last, share(last.len(), workers));
        law_shares_cover_everything(last, workers);
        assert forall|k: int| 0 <= k < parts.len() implies (#[trigger] parts[k]).len()
            <= longest by {
            lemma_flatten_part(parts, k);
        }
        lemma_fruitful_parts(parts, decode, longest);
        let earlier = init.map_values(each).flatten();
        lemma_filled_pieces_add(earlier, each(last));
        let a = filled_pieces(earlier);
        let b = filled_pieces(each(last));
        assert(longest * (a + b) == longest * a + longest * b) by (nonlinear_arith);
    }
}

/// The loading never runs dry. If the files hold a game that gives a position,
/// then for any number `n` there is a number of passes after which the reading
/// still goes on and the mixing has sent `n` batches, in whatever order the
/// workers send on what they decode, and even if a pass gives fewer positions than
/// fill the buffer. `most` is any bound on the limits of the buffer; the largest
/// `usize` is always one.
pub proof fn law_loading_never_runs_dry(
    reading: ReadState,
    files: Seq<Seq<Vec<u8>>>,
    passes: nat,
    workers: nat,
    decode: spec_fn(Vec<u8>) -> Seq<ChessBoard>,
    states: Seq<MixState>,
    pieces: Seq<Vec<ChessBoard>>,
    sent: Seq<Option<Seq<ChessBoard>>>,
    most: nat,
    n: nat,
)
    requires
        workers > 0,
        reading.batch_len == GAMES_PER_WORKER * workers,
        reading.games.len() < reading.batch_len,
        reading.files == files.len(),
        reading.file == 0,
        !reading.met_game,
        fruitful(files.flatten(), decode) > 0,
        mix_run(states, pieces, sent),
        contents(pieces).to_multiset() == all_worker_buffers(
            reading.read_passes(files, passes).1,
            workers,
            decode,
        ).to_multiset(),
        most >= 1,
        forall|i: int| 0 <= i < states.len() ==> (#[trigger] states[i]).buffer.limit <= most,
        passes >= reading.batch_len * (n * most + 1),
    ensures
        reading.read_passes(files, passes).2 == ReadCommand::Open(0),
        batches_in(sent).len() >= n,
{
    let games = files.flatten();
    assert(games.len() > 0) by {
        lemma_filled_pieces_bound(games.map_values(decode));
    }
    law_passes_repeat(reading, files, passes);
    let (after, batches, command) = reading.read_passes(files, passes);
    let longest = reading.batch_len as nat;
    lemma_fruitful_repeated(games, passes, decode);
    lemma_fruitful_add(reading.games, repeated(games, passes), decode);
    lemma_fruitful_add(batches.flatten(), after.games, decode);
    lemma_filled_pieces_bound(after.games.map_values(decode));
    lemma_fruitful_batches(batches, workers, decode, longest);
    lemma_filled_pieces_any_order(
        contents(pieces),
        all_worker_buffers(batches, workers, decode),
    );
    let filled = filled_pieces(contents(pieces));
    assert(longest * (n * most + 1) == longest * (n * most) + longest) by (nonlinear_arith);
    assert(longest * filled > longest * (n * most));
    assert(filled >= n * most) by (nonlinear_arith)
        requires
            longest * filled > longest * (n * most),
            longest > 0,
    ;
    law_mixing_keeps_sending(states, pieces, sent, most as int);
    let count = batches_in(sent).len();
    assert(count >= n) by (nonlinear_arith)
        requires
            count * most + most - 1 >= n * most,
            most >= 1,
    ;
}

/// A decoder that always gives the positions that `positions_of` names makes a
/// worker put together exactly the positions of its games.
pub proof fn law_workers_follow_decoder<D, E>(
    decode: D,
    positions_of: spec_fn(Vec<u8>) -> Seq<ChessBoard>,
    games: Seq<Vec<u8>>,
    decoded: Seq<Vec<ChessBoard>>,
) where D: Fn(&Vec<u8>) -> Result<Vec<ChessBoard>, E>
    requires
        decodes_to::<D, E>(decode, games, decoded),
        forall|game: Vec<u8>, boards: Vec<ChessBoard>| #[trigger]
            call_ensures(decode, (&game,), Ok::<Vec<ChessBoard>, E>(boards)) ==> boards@
                == positions_of(game),
    ensures
        contents(decoded).flatten() == positions(games, positions_of),
{
    assert forall|i: int| 0 <= i < games.len() implies #[trigger] contents(decoded)[i]
        == positions_of(games[i]) by {
        assert(call_ensures(decode, (&games[i],), Ok::<Vec<ChessBoard>, E>(decoded[i])));
    }
    assert(contents(decoded) =~= games.map_values(positions_of));
}

/// A request to stop is passed from each stage to the one before it. When the
/// receiver wants no more, the handing out asks the mixing to stop. A mixing that
/// finds such a request, or that cannot send, can only ask the decoding to stop; a
/// decoding that finds one asks the reading; and a reading that finds one, or that
/// cannot send, ends. This is about one step of each stage. That a request gets
/// from one stage to the next, and that the stages go on taking steps until then,
/// is up to the channels and loops of the caller.
pub proof fn law_each_stage_passes_a_stop_on(
    mixing: MixState,
    mixed: MixState,
    mix_command: MixCommand,
    waiting: Option<Vec<Vec<u8>>>,
    reading: ReadState,
)
    ensures
        hand_out_step(true) == HandOutAction::SignalStop,
        mixing.steps_to(MixEvent::StopPolled(true), mixed, mix_command) ==> mix_command
            == MixCommand::SignalStop,
        mixing.steps_to(MixEvent::Sent(false), mixed, mix_command) ==> mix_command
            == MixCommand::SignalStop,
        convert_step(waiting, ConvertEvent::StopPolled(true)).1 == ConvertAction::SignalStop,
        reading.step(ReadEvent::StopPolled(true)).1 == ReadCommand::Finish,
        reading.step(ReadEvent::Sent(false)).1 == ReadCommand::Finish,
{
}

proof fn lemma_passes_prefix(
    reading: ReadState,
    files: Seq<Seq<Vec<u8>>>,
    fewer: nat,
    passes: nat,
)
    requires
        fewer <= passes,
    ensures
        reading.read_passes(files, fewer).1.is_prefix_of(reading.read_passes(files, passes).1),
    decreases passes,
{
    if fewer < passes {
        lemma_passes_prefix(reading, files, fewer, (passes - 1) as nat);
        let first = reading.read_passes(files, fewer).1;
        let earlier = reading.read_passes(files, (passes - 1) as nat).1;
        let all = reading.read_passes(files, passes).1;
        assert(all.subrange(0, first.len() as int) =~= earlier.subrange(0, first.len() as int));
    }
}

proof fn lemma_flatten_prefix<T>(s: Seq<Seq<T>>, t: Seq<Seq<T>>)
    requires
        s.is_prefix_of(t),
    ensures
        s.flatten().is_prefix_of(t.flatten()),
{
    let rest = t.skip(s.len() as int);
    assert(t =~= s + rest);
    lemma_flatten_concat(s, rest);
    assert(t.flatten().subrange(0, s.flatten().len() as int) =~= s.flatten());
}

proof fn lemma_worker_buffers_prefix<G, T>(
    batches: Seq<Seq<G>>,
    more: Seq<Seq<G>>,
    workers: nat,
    decode: spec_fn(G) -> Seq<T>,
)
    requires
        batches.is_prefix_of(more),
    ensures
        all_worker_buffers(batches, workers, decode).is_prefix_of(
            all_worker_buffers(more, workers, decode),
        ),
{
    let each = |batch: Seq<G>| worker_buffers(batch, workers, decode);
    assert(more.map_values(each).subrange(0, batches.len() as int) =~= batches.map_values(each))
        by {
        assert(more.subrange(0, batches.len() as int) =~= batches);
        assert forall|i: int| 0 <= i < batches.len() implies more[i] == batches[i] by {
            assert(more.subrange(0, batches.len() as int)[i] == more[i]);
        }
    }
    lemma_flatten_prefix(batches.map_values(each), more.map_values(each));
}

/// What came in is a first part of what the workers send on for some number of
/// passes, in the order in which the shares are cut. With one worker nothing else
/// can come in.
pub open spec fn arrives_in_order(
    pieces: Seq<Vec<ChessBoard>>,
    reading: ReadState,
    files: Seq<Seq<Vec<u8>>>,
    passes: nat,
    workers: nat,
    decode: spec_fn(Vec<u8>) -> Seq<ChessBoard>,
) -> bool {
    contents(pieces).is_prefix_of(
        all_worker_buffers(reading.read_passes(files, passes).1, workers, decode),
    )
}

proof fn lemma_first_batch(
    states: Seq<MixState>,
    pieces: Seq<Vec<ChessBoard>>,
    sent: Seq<Option<Seq<ChessBoard>>>,
    stream: Seq<ChessBoard>,
)
    requires
        mix_run(states, pieces, sent),
        states.first().buffer.boards.len() == 0,
        contents(pieces).flatten().is_prefix_of(stream),
        batches_in(sent).len() > 0,
    ensures
        states.first().buffer.limit <= stream.len(),
        batches_in(sent)[0].to_multiset() == stream.take(
            states.first().buffer.limit as int,
        ).to_multiset(),
{
    lemma_sent_lengths(states, pieces, sent);
    law_batches_are_consecutive_blocks(states, pieces, sent);
    let limit = states.first().buffer.limit as int;
    let arrived = states.first().buffer.boards + contents(pieces).flatten();
    let first = batches_in(sent)[0];
    assert(batches_in(sent).take(0).flatten() =~= Seq::<ChessBoard>::empty());
    assert(arrived =~= contents(pieces).flatten());
    assert(first.to_multiset() == arrived.subrange(0, limit).to_multiset());
    assert(arrived.subrange(0, limit) =~= stream.take(limit)) by {
        assert forall|i: int| 0 <= i < limit implies arrived[i] == stream[i] by {
            assert(stream.subrange(0, arrived.len() as int)[i] == stream[i]);
        }
    }
}

/// Every loading starts afresh. Take two loadings of the same files, each with a
/// reading and a mixing as they are made, and stop each of them after any number
/// of pieces. If what the workers send on comes in in order, as it does with one
/// worker, and both buffers are full at the same number, then the first batch of
/// one is a rearrangement of the first batch of the other.
pub proof fn law_loadings_start_afresh(
    files: Seq<Seq<Vec<u8>>>,
    workers: nat,
    decode: spec_fn(Vec<u8>) -> Seq<ChessBoard>,
    passes: nat,
    states: Seq<MixState>,
    pieces: Seq<Vec<ChessBoard>>,
    sent: Seq<Option<Seq<ChessBoard>>>,
    other_passes: nat,
    other_states: Seq<MixState>,
    other_pieces: Seq<Vec<ChessBoard>>,
    other_sent: Seq<Option<Seq<ChessBoard>>>,
)
    requires
        arrives_in_order(
            pieces,
            ReadState::initial(files.len() as int, GAMES_PER_WORKER * workers),
            files,
            passes,
            workers,
            decode,
        ),
        arrives_in_order(
            other_pieces,
            ReadState::initial(files.len() as int, GAMES_PER_WORKER * workers),
            files,
            other_passes,
            workers,
            decode,
        ),
        mix_run(states, pieces, sent),
        mix_run(other_states, other_pieces, other_sent),
        states.first().buffer.boards.len() == 0,
        other_states.first().buffer.boards.len() == 0,
        states.first().buffer.limit == other_states.first().buffer.limit,
        batches_in(sent).len() > 0,
        batches_in(other_sent).len() > 0,
    ensures
        batches_in(sent)[0].to_multiset() == batches_in(other_sent)[0].to_multiset(),
{
    let reading = ReadState::initial(files.len() as int, GAMES_PER_WORKER * workers);
    let most = if passes < other_passes {
        other_passes
    } else {
        passes
    };
    let all = all_worker_buffers(reading.read_passes(files, most).1, workers, decode);
    lemma_arrived_prefix(pieces, reading, files, passes, most, workers, decode);
    lemma_arrived_prefix(other_pieces, reading, files, other_passes, most, workers, decode);
    lemma_first_batch(states, pieces, sent, all.flatten());
    lemma_first_batch(other_states, other_pieces, other_sent, all.flatten());
}

proof fn lemma_arrived_prefix(
    pieces: Seq<Vec<ChessBoard>>,
    reading: ReadState,
    files: Seq<Seq<Vec<u8>>>,
    passes: nat,
    most: nat,
    workers: nat,
    decode: spec_fn(Vec<u8>) -> Seq<ChessBoard>,
)
    requires
        passes <= most,
        arrives_in_order(pieces, reading, files, passes, workers, decode),
    ensures
        contents(pieces).flatten().is_prefix_of(
            all_worker_buffers(reading.read_passes(files, most).1, workers, decode).flatten(),
        ),
{
    let some = reading.read_passes(files, passes).1;
    let all = reading.read_passes(files, most).1;
    lemma_passes_prefix(reading, files, passes, most);
    lemma_worker_buffers_prefix(some, all, workers, decode);
    let a = contents(pieces);
    let b = all_worker_buffers(some, workers, decode);
    let c = all_worker_buffers(all, workers, decode);
    assert(c.subrange(0, a.len() as int) =~= b.subrange(0, a.len() as int)) by {
        assert forall|i: int| 0 <= i < a.len() implies c[i] == b[i] by {
            assert(c.subrange(0, b.len() as int)[i] == c[i]);
        }
    }
    lemma_flatten_prefix(a, c);
}

/// The positions of games are those of each game, in the order of the games.
pub proof fn law_positions<G, T>(game: G, games: Seq<G>, more: Seq<G>, decode: spec_fn(G) -> Seq<T>)
    ensures
        positions(Seq::<G>::empty(), decode) == Seq::<T>::empty(),
        positions(seq![game], decode) == decode(game),
        positions(games + more, decode) == positions(games, decode) + positions(more, decode),
{
    assert(Seq::<G>::empty().map_values(decode) =~= Seq::<Seq<T>>::empty());
    assert(seq![game].map_values(decode) =~= seq![decode(game)]);
    seq![decode(game)].lemma_flatten_one_element();
    lemma_positions_add(games, more, decode);
}

/// Following the stage's own decisions is all that the mixing needs. When
/// positions come in, the stage looks for a request to stop; if there is none, it
/// either waits for more, or looks again, sends a batch, and then waits for more.
pub proof fn law_mixing_decides_so(
    before: MixState,
    boards: Vec<ChessBoard>,
    came: MixState,
    polling: MixCommand,
    mixed: MixState,
    command: MixCommand,
    sending: MixState,
    send: MixCommand,
    after: MixState,
    receive: MixCommand,
)
    requires
        before.ready is None,
        before.steps_to(MixEvent::Boards(boards), came, polling),
        came.steps_to(MixEvent::StopPolled(false), mixed, command),
        mixed.steps_to(MixEvent::StopPolled(false), sending, send),
        sending.steps_to(MixEvent::Sent(true), after, receive),
    ensures
        polling == MixCommand::PollStop,
        command == MixCommand::Receive || command == MixCommand::PollStop,
        command == MixCommand::Receive ==> mixes(before, boards, mixed, None),
        command == MixCommand::PollStop ==> send is Send && receive == MixCommand::Receive
            && mixes(before, boards, after, Some(send->Send_0)),
{
    assert(came.can_take_in(boards@, mixed, command));
    let seed = choose|seed: u128| #[trigger] came.takes_in(boards@, seed, mixed, command);
    if command == MixCommand::Receive {
        assert(mixes_through(before, boards, came, mixed, command, mixed, mixed, None));
    } else {
        assert(mixes_through(
            before,
            boards,
            came,
            mixed,
            command,
            sending,
            after,
            Some(send->Send_0),
        ));
    }
}

proof fn lemma_limit_after(
    before: MixState,
    boards: Vec<ChessBoard>,
    after: MixState,
    sent: Option<Seq<ChessBoard>>,
)
    requires
        before.ready is None,
        before.buffer.well_formed(),
        mixes(before, boards, after, sent),
    ensures
        after.buffer.limit == before.buffer.limit || after.buffer.limit == before.buffer.size
            || boards@.len() > before.buffer.size && after.buffer.limit <= grown(
            before.buffer.size as int,
            boards@.len() as int,
        ),
{
    let (came, mixed, command, sending) = choose|
        came: MixState,
        mixed: MixState,
        command: MixCommand,
        sending: MixState,
    | #[trigger]
        mixes_through(before, boards, came, mixed, command, sending, after, sent);
    assert(came.can_take_in(boards@, mixed, command));
    let seed = choose|seed: u128| #[trigger] came.takes_in(boards@, seed, mixed, command);
}

proof fn lemma_limits(
    states: Seq<MixState>,
    pieces: Seq<Vec<ChessBoard>>,
    sent: Seq<Option<Seq<ChessBoard>>>,
    longest: int,
)
    requires
        mix_run(states, pieces, sent),
        states.first().buffer.limit == states.first().buffer.size,
        forall|i: int| 0 <= i < pieces.len() ==> (#[trigger] pieces[i])@.len() <= longest,
    ensures
        forall|i: int|
            0 <= i < states.len() ==> (#[trigger] states[i]).buffer.limit
                == states.first().buffer.size || longest > states.first().buffer.size
                && states[i].buffer.limit <= grown(states.first().buffer.size as int, longest),
    decreases pieces.len(),
{
    if pieces.len() > 0 {
        let n = pieces.len() - 1;
        let states0 = states.drop_last();
        let pieces0 = pieces.drop_last();
        let sent0 = sent.drop_last();
        assert forall|i: int| 0 <= i < pieces0.len() implies mixes(
            states0[i],
            #[trigger] pieces0[i],
            states0[i + 1],
            sent0[i],
        ) by {
            assert(pieces0[i] == pieces[i]);
        }
        assert forall|i: int| 0 <= i < pieces0.len() implies (#[trigger] pieces0[i])@.len()
            <= longest by {
            assert(pieces0[i] == pieces[i]);
        }
        lemma_limits(states0, pieces0, sent0, longest);
        lemma_mix_run(states0, pieces0, sent0);
        assert(states0.last() == states[n]);
        assert(states0[n] == states[n]);
        assert(pieces[n]@.len() <= longest);
        lemma_limit_after(states[n], pieces[n], states[n + 1], sent[n]);
        assert forall|i: int| 0 <= i < states.len() implies (#[trigger] states[i]).buffer.limit
            == states.first().buffer.size || longest > states.first().buffer.size
            && states[i].buffer.limit <= grown(states.first().buffer.size as int, longest) by {
            if i < states0.len() {
                assert(states0[i] == states[i]);
            }
        }
    }
}

/// Batches have the size that was asked for. Let the mixing start with a buffer as
/// it is made. If no piece that comes in has more positions than the buffer was
/// made for, then every batch that is sent has exactly as many positions as the
/// buffer was made for. In any case no batch has more than twice as many, or as
/// many as the longest piece, or four.
pub proof fn law_batches_have_the_size_asked_for(
    states: Seq<MixState>,
    pieces: Seq<Vec<ChessBoard>>,
    sent: Seq<Option<Seq<ChessBoard>>>,
    longest: int,
)
    requires
        mix_run(states, pieces, sent),
        states.first().buffer.limit == states.first().buffer.size,
        forall|i: int| 0 <= i < pieces.len() ==> (#[trigger] pieces[i])@.len() <= longest,
    ensures
        longest <= states.first().buffer.size ==> forall|i: int|
            0 <= i < sent.len() && (#[trigger] sent[i]) is Some ==> sent[i]->0.len()
                == states.first().buffer.size,
        forall|i: int|
            0 <= i < sent.len() && (#[trigger] sent[i]) is Some ==> sent[i]->0.len()
                <= 2 * states.first().buffer.size || sent[i]->0.len() <= longest || sent[i]->0.len()
                <= 4,
        batches_in(sent).len() > 0 ==> batches_in(sent)[0].len() == states.first().buffer.size,
{
    lemma_limits(states, pieces, sent, longest);
    lemma_sent_lengths(states, pieces, sent);
    assert forall|i: int| 0 <= i < sent.len() && (#[trigger] sent[i]) is Some implies sent[i]
        ->0.len() == states[i].buffer.limit by {}
}

proof fn lemma_never_full(
    states: Seq<MixState>,
    pieces: Seq<Vec<ChessBoard>>,
    sent: Seq<Option<Seq<ChessBoard>>>,
)
    requires
        mix_run(states, pieces, sent),
        states.first().buffer.limit == states.first().buffer.size,
        states.first().buffer.size > 0,
        states.first().buffer.boards.len() == 0,
        forall|i: int|
            0 <= i < pieces.len() ==> (#[trigger] pieces[i])@.len() <= states.first().buffer.size,
    ensures
        states.last().buffer.boards.len() < states.first().buffer.size,
    decreases pieces.len(),
{
    if pieces.len() > 0 {
        let n = pieces.len() - 1;
        let states0 = states.drop_last();
        let pieces0 = pieces.drop_last();
        let sent0 = sent.drop_last();
        assert forall|i: int| 0 <= i < pieces0.len() implies mixes(
            states0[i],
            #[trigger] pieces0[i],
            states0[i + 1],
            sent0[i],
        ) by {
            assert(pieces0[i] == pieces[i]);
        }
        assert forall|i: int| 0 <= i < pieces0.len() implies (#[trigger] pieces0[i])@.len()
            <= states.first().buffer.size by {
            assert(pieces0[i] == pieces[i]);
        }
        lemma_never_full(states0, pieces0, sent0);
        lemma_mix_run(states0, pieces0, sent0);
        lemma_limits(states0, pieces0, sent0, states.first().buffer.size as int);
        assert(states0.last() == states[n]);
        assert(states0[n] == states[n]);
        assert(pieces[n]@.len() <= states.first().buffer.size);
        let batch = lemma_mixes(states[n], pieces[n], states[n + 1], sent[n]);
    }
}

/// The mixing keeps up. Let it start with a buffer as it is made, for at least one
/// position, and let no piece that comes in have more positions than the buffer
/// was made for. Then as many batches were sent as the positions that came in can
/// fill, and the buffer holds the remainder.
pub proof fn law_mixing_keeps_up(
    states: Seq<MixState>,
    pieces: Seq<Vec<ChessBoard>>,
    sent: Seq<Option<Seq<ChessBoard>>>,
)
    requires
        mix_run(states, pieces, sent),
        states.first().buffer.limit == states.first().buffer.size,
        states.first().buffer.size > 0,
        states.first().buffer.boards.len() == 0,
        forall|i: int|
            0 <= i < pieces.len() ==> (#[trigger] pieces[i])@.len() <= states.first().buffer.size,
    ensures
        batches_in(sent).len() == contents(pieces).flatten().len() as int
            / states.first().buffer.size as int,
        states.last().buffer.boards.len() == contents(pieces).flatten().len() as int
            % states.first().buffer.size as int,
{
    let size = states.first().buffer.size as int;
    law_batches_are_consecutive_blocks(states, pieces, sent);
    lemma_limits(states, pieces, sent, size);
    lemma_never_full(states, pieces, sent);
    law_sent_batches_are_full(states, pieces, sent);
    let batches = batches_in(sent);
    assert forall|k: int| 0 <= k < batches.len() implies (#[trigger] batches[k]).len() == size by {
        let limits = limits_of(states, pieces.len());
        let i = choose|i: int| 0 <= i < limits.len() && limits[i] == batches[k].len();
        assert(limits[i] == states[i].buffer.limit);
    }
    lemma_even_lengths(batches, size as nat);
    let total = contents(pieces).flatten().len() as int;
    let rest = states.last().buffer.boards.len() as int;
    assert(states.first().buffer.boards + contents(pieces).flatten() =~= contents(
        pieces,
    ).flatten());
    assert(total == batches.len() * size + rest);
    vstd::arithmetic::div_mod::lemma_fundamental_div_mod_converse(
        total,
        size,
        batches.len() as int,
        rest,
    );
}

proof fn lemma_even_lengths<T>(s: Seq<Seq<T>>, len: nat)
    requires
        forall|k: int| 0 <= k < s.len() ==> (#[trigger] s[k]).len() == len,
    ensures
        s.flatten().len() == s.len() * len,
    decreases s.len(),
{
    if s.len() == 0 {
        assert(s.len() * len == 0) by (nonlinear_arith)
            requires
                s.len() == 0,
        ;
    } else {
        let init = s.drop_last();
        assert forall|k: int| 0 <= k < init.len() implies (#[trigger] init[k]).len() == len by {
            assert(init[k] == s[k]);
        }
        lemma_even_lengths(init, len);
        assert(s =~= init.push(s.last()));
        init.lemma_flatten_push(s.last());
        assert(s[s.len() - 1].len() == len);
        assert(s.len() * len == init.len() * len + len) by (nonlinear_arith)
            requires
                s.len() == init.len() + 1,
        ;
    }
}

} // verus!
