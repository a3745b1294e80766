//! Decoding games into positions: how the games of a batch are shared out among
//! the workers, and what each worker makes of its share.
use vstd::prelude::*;
use vstd::seq_lib::*;
use bulletformat::ChessBoard;

verus! {

/// `s` cut into pieces of `size` items from the front on; the last piece may be
/// shorter.
pub open spec fn chunked<T>(s: Seq<T>, size: nat) -> Seq<Seq<T>>
    decreases s.len(),
{
    if s.len() == 0 || size == 0 {
        Seq::empty()
    } else if s.len() <= size {
        seq![s]
    } else {
        seq![s.take(size as int)] + chunked(s.skip(size as int), size)
    }
}

/// `n` divided by `workers`, rounded up.
pub open spec fn share(n: nat, workers: nat) -> nat
    recommends
        workers > 0,
{
    if n % workers == 0 {
        n / workers
    } else {
        n / workers + 1
    }
}

/// The contents of slices.
pub open spec fn slices<T>(parts: Seq<&[T]>) -> Seq<Seq<T>> {
    parts.map_values(|part: &[T]| part@)
}

proof fn lemma_share(n: nat, workers: nat)
    requires
        workers > 0,
        n > 0,
    ensures
        0 < share(n, workers) <= n,
        n <= share(n, workers) * workers,
        (share(n, workers) - 1) * workers < n,
{
    vstd::arithmetic::div_mod::lemma_fundamental_div_mod(n as int, workers as int);
    let q = n / workers;
    assert(workers * q == q * workers) by (nonlinear_arith);
    if q == 0 {
        assert(q * workers == 0) by (nonlinear_arith)
            requires
                q == 0,
        ;
    }
    assert(q <= n) by (nonlinear_arith)
        requires
            q * workers <= n,
            workers > 0,
            q >= 0,
    ;
    assert((q + 1) * workers == q * workers + workers) by (nonlinear_arith);
    assert((q - 1) * workers == q * workers - workers) by (nonlinear_arith);
    if n % workers != 0 && q + 1 > n {
        assert(q * workers >= n) by (nonlinear_arith)
            requires
                q >= n,
                workers > 0,
        ;
    }
}

proof fn lemma_chunked<T>(s: Seq<T>, size: nat)
    requires
        size > 0,
    ensures
        chunked(s, size).flatten() == s,
        s.len() > 0 ==> (chunked(s, size).len() - 1) * size < s.len(),
        s.len() <= chunked(s, size).len() * size,
        forall|k: int|
            0 <= k < chunked(s, size).len() ==> 0 < (#[trigger] chunked(s, size)[k]).len() <= size,
    decreases s.len(),
{
    let pieces = chunked(s, size);
    if s.len() == 0 {
        assert(pieces.flatten() =~= s);
    } else if s.len() <= size {
        pieces.lemma_flatten_one_element();
        assert((pieces.len() - 1) * size == 0) by (nonlinear_arith)
            requires
                pieces.len() == 1,
        ;
        assert(pieces.len() * size == size) by (nonlinear_arith)
            requires
                pieces.len() == 1,
        ;
    } else {
        let rest = s.skip(size as int);
        let later = chunked(rest, size);
        lemma_chunked(rest, size);
        assert(pieces.drop_first() =~= later);
        assert(pieces.first() == s.take(size as int));
        assert(s.take(size as int) + rest =~= s);
        assert(pieces.len() == later.len() + 1);
        assert((pieces.len() - 1) * size == (later.len() - 1) * size + size) by (nonlinear_arith)
            requires
                pieces.len() == later.len() + 1,
        ;
        assert(pieces.len() * size == later.len() * size + size) by (nonlinear_arith)
            requires
                pieces.len() == later.len() + 1,
        ;
        assert forall|k: int| 0 <= k < pieces.len() implies 0 < (#[trigger] pieces[k]).len()
            <= size by {
            if k > 0 {
                assert(pieces[k] == later[k - 1]);
            }
        }
    }
}

/// The shares are an ordered cut of the whole: put together again they give back
/// the items, no share is empty or larger than the share size, and there are no
/// more shares than workers.
pub proof fn law_shares_cover_everything<T>(s: Seq<T>, workers: nat)
    requires
        s.len() > 0,
        workers > 0,
    ensures
        chunked(s, share(s.len(), workers)).flatten() == s,
        0 < chunked(s, share(s.len(), workers)).len() <= workers,
        forall|k: int|
            0 <= k < chunked(s, share(s.len(), workers)).len() ==> 0 < (#[trigger] chunked(
                s,
                share(s.len(), workers),
            )[k]).len() <= share(s.len(), workers),
{
    let size = share(s.len(), workers);
    lemma_share(s.len(), workers);
    lemma_chunked(s, size);
    let count = chunked(s, size).len();
    if count > workers {
        assert((count - 1) * size >= size * workers) by (nonlinear_arith)
            requires
                count - 1 >= workers,
                size >= 0,
                workers >= 0,
        ;
    }
}

/// Cuts `items` into one share for each worker. All shares have the same size
/// but the last, which takes what is left, and there may be fewer shares than
/// workers.
pub fn split_shares<T>(items: &[T], workers: usize) -> (shares: Vec<&[T]>)
    requires
        items@.len() > 0,
        workers > 0,
    ensures
        slices(shares@) == chunked(items@, share(items@.len(), workers as nat)),
{
    let n: usize = items.len();
    proof {
        lemma_share(n as nat, workers as nat);
    }
    let size: usize = if n % workers == 0 {
        n / workers
    } else {
        n / workers + 1
    };
    let ghost whole = chunked(items@, size as nat);
    let mut shares: Vec<&[T]> = Vec::new();
    let mut from: usize = 0;
    assert(items@.skip(0) =~= items@);
    assert(slices(shares@) + whole =~= whole);
    while n - from > size
        invariant
            0 < size,
            from < n,
            n == items@.len(),
            slices(shares@) + chunked(items@.skip(from as int), size as nat) == whole,
        decreases n - from,
    {
        let to: usize = from + size;
        let ghost before = slices(shares@);
        let ghost rest = items@.skip(from as int);
        let part: &[T] = vstd::slice::slice_subrange(items, from, to);
        shares.push(part);
        assert(part@ =~= rest.take(size as int));
        assert(slices(shares@) =~= before.push(part@));
        assert(rest.skip(size as int) =~= items@.skip(to as int));
        assert(slices(shares@) + chunked(items@.skip(to as int), size as nat) =~= before + chunked(
            rest,
            size as nat,
        ));
        from = to;
    }
    let ghost before = slices(shares@);
    let ghost rest = items@.skip(from as int);
    let part: &[T] = vstd::slice::slice_subrange(items, from, n);
    shares.push(part);
    assert(part@ =~= rest);
    assert(slices(shares@) =~= before.push(part@));
    assert(slices(shares@) =~= before + chunked(rest, size as nat));
    shares
}

/// The contents of vectors.
pub open spec fn contents(vectors: Seq<Vec<ChessBoard>>) -> Seq<Seq<ChessBoard>> {
    vectors.map_values(|v: Vec<ChessBoard>| v@)
}

/// `decode` can give `decoded[i]` for `games[i]`, for each of the games.
pub open spec fn decodes_to<D, E>(
    decode: D,
    games: Seq<Vec<u8>>,
    decoded: Seq<Vec<ChessBoard>>,
) -> bool where D: Fn(&Vec<u8>) -> Result<Vec<ChessBoard>, E> {
    &&& decoded.len() == games.len()
    &&& forall|i: int|
        0 <= i < games.len() ==> call_ensures(
            decode,
            (&games[i],),
            Ok::<Vec<ChessBoard>, E>(#[trigger] decoded[i]),
        )
}

/// Decodes one game and appends its positions to `buffer`, which stays as it is
/// if the game cannot be decoded.
pub fn parse_into_buffer<D, E>(
    game: &Vec<u8>,
    buffer: &mut Vec<ChessBoard>,
    decode: &D,
) -> (result: Result<(), E>) where D: Fn(&Vec<u8>) -> Result<Vec<ChessBoard>, E>
    requires
        call_requires(*decode, (game,)),
    ensures
        match result {
            Ok(()) => exists|boards: Vec<ChessBoard>| #[trigger]
                call_ensures(*decode, (game,), Ok::<Vec<ChessBoard>, E>(boards)) && final(buffer)@
                    == old(buffer)@ + boards@,
            Err(error) => call_ensures(*decode, (game,), Err::<Vec<ChessBoard>, E>(error))
                && final(buffer)@ == old(buffer)@,
        },
{
    match decode(game) {
        Ok(boards) => {
            let mut boards = boards;
            buffer.append(&mut boards);
            Ok(())
        },
        Err(error) => Err(error),
    }
}

/// Decodes a worker's games in order and puts their positions together. The
/// first game that cannot be decoded ends the work with its error.
pub fn convert_share<D, E>(games: &[Vec<u8>], decode: &D) -> (result: Result<
    Vec<ChessBoard>,
    E,
>) where D: Fn(&Vec<u8>) -> Result<Vec<ChessBoard>, E>
    requires
        forall|i: int| 0 <= i < games@.len() ==> call_requires(*decode, (&#[trigger] games@[i],)),
    ensures
        match result {
            Ok(buffer) => exists|decoded: Seq<Vec<ChessBoard>>| #[trigger]
                decodes_to::<D, E>(*decode, games@, decoded) && buffer@ == contents(
                    decoded,
                ).flatten(),
            Err(error) => exists|decoded: Seq<Vec<ChessBoard>>, i: int|
                0 <= i < games@.len() && #[trigger] decodes_to::<D, E>(
                    *decode,
                    games@.take(i),
                    decoded,
                ) && call_ensures(*decode, (&games@[i],), Err::<Vec<ChessBoard>, E>(error)),
        },
{
    let mut buffer: Vec<ChessBoard> = Vec::new();
    let ghost mut decoded: Seq<Vec<ChessBoard>> = Seq::empty();
    assert(contents(decoded).flatten() =~= Seq::<ChessBoard>::empty());
    for i in 0..games.len()
        invariant
            forall|i: int|
                0 <= i < games@.len() ==> call_requires(*decode, (&#[trigger] games@[i],)),
            decodes_to::<D, E>(*decode, games@.take(i as int), decoded),
            buffer@ == contents(decoded).flatten(),
    {
        let ghost before = buffer@;
        match parse_into_buffer(&games[i], &mut buffer, decode) {
            Ok(()) => {
                proof {
                    let boards = choose|boards: Vec<ChessBoard>| #[trigger]
                        call_ensures(*decode, (&games[i as int],), Ok::<Vec<ChessBoard>, E>(boards))
                            && buffer@ == before + boards@;
                    contents(decoded).lemma_flatten_push(boards@);
                    assert(contents(decoded.push(boards)) =~= contents(decoded).push(boards@));
                    decoded = decoded.push(boards);
                }
            },
            Err(error) => {
                return Err(error);
            },
        }
    }
    assert(games@.take(games@.len() as int) =~= games@);
    Ok(buffer)
}

proof fn lemma_chunked_places<T>(s: Seq<T>, size: nat)
    requires
        size > 0,
    ensures
        forall|k: int|
            0 <= k < chunked(s, size).len() - 1 ==> (#[trigger] chunked(s, size)[k]).len() == size,
    decreases s.len(),
{
    if s.len() > size {
        let rest = s.skip(size as int);
        let later = chunked(rest, size);
        lemma_chunked_places(rest, size);
        assert forall|k: int| 0 <= k < chunked(s, size).len() - 1 implies (#[trigger] chunked(
            s,
            size,
        )[k]).len() == size by {
            if k > 0 {
                assert(chunked(s, size)[k] == later[k - 1]);
            }
        }
    }
}

/// The work is shared out evenly. The size of a share is the least with which
/// `workers` shares are enough for all items: with it they are, and with one less
/// they would not be. Every share but the last has exactly that size.
pub proof fn law_shares_are_even<T>(s: Seq<T>, workers: nat)
    requires
        s.len() > 0,
        workers > 0,
    ensures
        s.len() <= share(s.len(), workers) * workers,
        s.len() > (share(s.len(), workers) - 1) * workers,
        forall|k: int|
            0 <= k < chunked(s, share(s.len(), workers)).len() - 1 ==> (#[trigger] chunked(
                s,
                share(s.len(), workers),
            )[k]).len() == share(s.len(), workers),
{
    lemma_share(s.len(), workers);
    lemma_chunked_places(s, share(s.len(), workers));
}

/// The contents of slices and of vectors are their contents one by one, none left
/// out and none moved.
pub proof fn law_contents<T>(parts: Seq<&[T]>, vectors: Seq<Vec<ChessBoard>>)
    ensures
        slices(parts).len() == parts.len(),
        forall|i: int| 0 <= i < parts.len() ==> #[trigger] slices(parts)[i] == parts[i]@,
        contents(vectors).len() == vectors.len(),
        forall|i: int| 0 <= i < vectors.len() ==> #[trigger] contents(vectors)[i] == vectors[i]@,
{
}

/// Games are decoded to as many vectors as there are games, each of them one that
/// the decoder can give for the game at its place.
pub proof fn law_games_are_decoded_one_by_one<D, E>(
    decode: D,
    games: Seq<Vec<u8>>,
    decoded: Seq<Vec<ChessBoard>>,
) where D: Fn(&Vec<u8>) -> Result<Vec<ChessBoard>, E>
    ensures
        decodes_to::<D, E>(decode, games, decoded) <==> {
            &&& decoded.len() == games.len()
            &&& forall|i: int|
                0 <= i < games.len() ==> call_ensures(
                    decode,
                    (&games[i],),
                    Ok::<Vec<ChessBoard>, E>(#[trigger] decoded[i]),
                )
        },
{
}

} // verus!
