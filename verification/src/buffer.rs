//! The buffer in which positions of many games are mixed before they are
//! shuffled and handed out.
use vstd::prelude::*;
use vstd::seq_lib::*;
use bulletformat::ChessBoard;
use crate::loader::BOARD_BYTES;

verus! {

/// Calls `Vec::reserve_exact`, which leaves the contents as they are. It panics
/// if the vector were to take more than `isize::MAX` bytes.
#[verifier::external_body]
fn reserve_exact(boards: &mut Vec<ChessBoard>, additional: usize)
    requires
        (old(boards)@.len() + additional) * BOARD_BYTES <= isize::MAX,
    ensures
        final(boards)@ == old(boards)@,
{
    boards.reserve_exact(additional)
}

/// Calls `Vec::capacity`: the number of items that the vector can hold without
/// another allocation. It is at least the number of items in the vector; beyond
/// that it is up to the allocator.
#[verifier::external_body]
fn capacity(boards: &Vec<ChessBoard>) -> (capacity: usize)
    ensures
        capacity >= boards@.len(),
{
    boards.capacity()
}

/// Appends `boards[from..to]` to `onto`.
fn extend_from_range(onto: &mut Vec<ChessBoard>, boards: &[ChessBoard], from: usize, to: usize)
    requires
        from <= to <= boards@.len(),
    ensures
        final(onto)@ == old(onto)@ + boards@.subrange(from as int, to as int),
{
    let ghost start = onto@;
    onto.reserve(to - from);
    let mut i: usize = from;
    assert(start + boards@.subrange(from as int, from as int) =~= start);
    while i < to
        invariant
            from <= i <= to <= boards@.len(),
            onto@ == start + boards@.subrange(from as int, i as int),
        decreases to - i,
    {
        onto.push(boards[i]);
        assert(boards@.subrange(from as int, i + 1) =~= boards@.subrange(from as int, i as int).push(
            boards@[i as int],
        ));
        i = i + 1;
    }
}

/// What comes of adding items to a buffer that is full at `limit` items. While
/// the items held and those added are fewer than that, they are kept. Otherwise
/// as many of them as make the buffer full leave it as a batch, and the rest is
/// kept.
pub open spec fn add_outcome<T>(
    held: Seq<T>,
    added: Seq<T>,
    limit: int,
    batch: Option<Seq<T>>,
    kept: Seq<T>,
) -> bool {
    let all = held + added;
    if all.len() < limit {
        batch is None && kept == all
    } else {
        batch == Some(all.take(limit)) && kept == all.skip(limit)
    }
}

/// The contents of a batch, if there is one.
pub open spec fn batch_view(batch: Option<Vec<ChessBoard>>) -> Option<Seq<ChessBoard>> {
    match batch {
        Some(boards) => Some(boards@),
        None => None,
    }
}

/// The larger of two numbers.
pub open spec fn larger(a: int, b: int) -> int {
    if a < b {
        b
    } else {
        a
    }
}

/// The space to which space for `size` positions grows when `needed` positions,
/// more than fit into it, are put there: it doubles, or grows to what is needed if
/// that is more, and it never grows to fewer than four.
pub open spec fn grown(size: int, needed: int) -> int {
    larger(larger(2 * size, needed), 4)
}

/// Appends `added` to `boards`, up to `limit` positions in all. If that many are
/// reached, `boards` is a full batch, and what is left of `added` is returned.
pub fn fill_up(boards: &mut Vec<ChessBoard>, added: &[ChessBoard], limit: usize) -> (rest: Option<
    Vec<ChessBoard>,
>)
    requires
        old(boards)@.len() <= limit,
    ensures
        old(boards)@.len() + added@.len() < limit ==> rest is None && final(boards)@ == old(
            boards,
        )@ + added@,
        old(boards)@.len() + added@.len() >= limit ==> final(boards)@ == (old(boards)@
            + added@).take(limit as int) && batch_view(rest) == Some(
            (old(boards)@ + added@).skip(limit as int),
        ),
{
    let ghost held = boards@;
    let diff: usize = limit - boards.len();
    if added.len() < diff {
        extend_from_range(boards, added, 0, added.len());
        assert(boards@ =~= held + added@);
        None
    } else {
        extend_from_range(boards, added, 0, diff);
        assert(boards@ =~= (held + added@).take(limit as int));
        let mut rest: Vec<ChessBoard> = Vec::new();
        extend_from_range(&mut rest, added, diff, added.len());
        assert(rest@ =~= (held + added@).skip(limit as int));
        Some(rest)
    }
}

/// Positions that wait to be shuffled.
pub struct ShuffleBuffer {
    boards: Vec<ChessBoard>,
    size: usize,
    limit: usize,
}

/// The state of a shuffle buffer.
pub ghost struct BufferState {
    /// The positions in the buffer.
    pub boards: Seq<ChessBoard>,
    /// The number of positions that the buffer was made for.
    pub size: usize,
    /// The number of positions at which the buffer is full.
    pub limit: usize,
}

impl BufferState {
    /// The buffer is full at no fewer positions than it was made for, and it
    /// holds no more than make it full.
    pub open spec fn well_formed(self) -> bool {
        self.size <= self.limit && self.boards.len() <= self.limit
    }

    /// `after` is this buffer with new space for its positions. If they fit into
    /// the size that the buffer was made for, it is full at that size. Otherwise
    /// its space has grown, and it is full at what it has grown to.
    pub open spec fn renews_to(self, after: BufferState) -> bool {
        &&& after.boards == self.boards
        &&& after.size == self.size
        &&& after.well_formed()
        &&& if self.boards.len() <= self.size {
            after.limit == after.size
        } else {
            after.limit == grown(self.size as int, self.boards.len() as int)
        }
    }
}

impl View for ShuffleBuffer {
    type V = BufferState;

    closed spec fn view(&self) -> BufferState {
        BufferState { boards: self.boards@, size: self.size, limit: self.limit }
    }
}

impl ShuffleBuffer {
    #[verifier::type_invariant]
    spec fn well_formed(self) -> bool {
        &&& self.size * BOARD_BYTES <= isize::MAX
        &&& self@.well_formed()
    }

    /// An empty buffer for `size` positions, which is full at exactly that many.
    pub fn new(size: usize) -> (buffer: ShuffleBuffer)
        requires
            size * BOARD_BYTES <= isize::MAX,
        ensures
            buffer@.boards == Seq::<ChessBoard>::empty(),
            buffer@.size == size,
            buffer@.limit == size,
            buffer@.well_formed(),
    {
        let mut boards: Vec<ChessBoard> = Vec::new();
        let limit: usize = reserve(&mut boards, size, &[]);
        ShuffleBuffer { boards, size, limit }
    }

    /// The number of positions at which the buffer is full.
    pub fn limit(&self) -> (limit: usize)
        ensures
            limit == self@.limit,
            self@.well_formed(),
    {
        proof {
            use_type_invariant(self);
        }
        self.limit
    }

    /// Adds positions to the buffer. If they make it full, the batch that they
    /// complete leaves it. What is left over is kept, but no space is set aside
    /// for the next batch until `renew` is called: until then the buffer is full
    /// at the least number that its size and what it keeps allow.
    pub fn add(&mut self, added: &[ChessBoard]) -> (batch: Option<Vec<ChessBoard>>)
        ensures
            add_outcome(
                old(self)@.boards,
                added@,
                old(self)@.limit as int,
                batch_view(batch),
                final(self)@.boards,
            ),
            batch is None ==> final(self)@.limit == old(self)@.limit,
            batch is Some ==> final(self)@.limit == larger(
                final(self)@.size as int,
                final(self)@.boards.len() as int,
            ),
            final(self)@.size == old(self)@.size,
            final(self)@.limit >= final(self)@.size,
            final(self)@.well_formed(),
    {
        proof {
            use_type_invariant(&*self);
        }
        let mut boards: Vec<ChessBoard> = Vec::new();
        std::mem::swap(&mut boards, &mut self.boards);
        match fill_up(&mut boards, added, self.limit) {
            None => {
                self.boards = boards;
                None
            },
            Some(rest) => {
                self.limit = limit_for(self.size, rest.len());
                self.boards = rest;
                Some(boards)
            },
        }
    }

    /// Sets aside space for the next batch. It is to be called when the batch
    /// before it has been passed on, so that no more than two take up memory.
    pub fn renew(&mut self)
        ensures
            old(self)@.renews_to(final(self)@),
    {
        proof {
            use_type_invariant(&*self);
        }
        let mut rest: Vec<ChessBoard> = Vec::new();
        std::mem::swap(&mut rest, &mut self.boards);
        let mut boards: Vec<ChessBoard> = Vec::new();
        let limit: usize = reserve(&mut boards, self.size, rest.as_slice());
        self.limit = limit;
        self.boards = boards;
    }
}

/// Sets aside space for `size` positions in the empty `boards`, puts `first` into
/// it, and returns how many positions make it full. That is `size`, if `first`
/// fits. Otherwise it is what the space grows to, and if the vector has grown to
/// less, the difference is set aside too.
fn reserve(boards: &mut Vec<ChessBoard>, size: usize, first: &[ChessBoard]) -> (limit: usize)
    requires
        old(boards)@.len() == 0,
        size * BOARD_BYTES <= isize::MAX,
    ensures
        final(boards)@ == first@,
        limit >= size,
        limit >= first@.len(),
        first@.len() <= size ==> limit == size,
        first@.len() > size ==> limit == grown(size as int, first@.len() as int),
{
    reserve_exact(boards, size);
    extend_from_range(boards, first, 0, first.len());
    assert(boards@ =~= first@);
    let len: usize = first.len();
    if len <= size {
        return size;
    }
    let limit: usize = limit_for(limit_for(2 * size, len), 4);
    if capacity(boards) < limit && limit <= (isize::MAX as usize) / BOARD_BYTES {
        reserve_exact(boards, limit - len);
    }
    limit
}

/// The number of positions at which a buffer for `size` positions is full, when
/// there is space for `space` of them: as many as there is space for, and never
/// fewer than it was made for.
pub fn limit_for(size: usize, space: usize) -> (limit: usize)
    ensures
        limit == larger(size as int, space as int),
{
    if space < size {
        size
    } else {
        space
    }
}

/// The batches that leave a buffer, and what it keeps, when `pieces` are added
/// to it one after the other and it is full at `limits[i]` items when the
/// piece at `i` is added.
pub open spec fn fill<T>(
    held: Seq<T>,
    pieces: Seq<Seq<T>>,
    limits: Seq<int>,
) -> (Seq<Seq<T>>, Seq<T>)
    decreases pieces.len(),
{
    if pieces.len() == 0 {
        (Seq::empty(), held)
    } else {
        let (batches, kept) = fill(held, pieces.drop_last(), limits.drop_last());
        let all = kept + pieces.last();
        if all.len() < limits.last() {
            (batches, all)
        } else {
            (batches.push(all.take(limits.last())), all.skip(limits.last()))
        }
    }
}

/// Adding one more piece is one more `add_outcome`.
pub proof fn law_fill_adds_piece_by_piece<T>(
    held: Seq<T>,
    pieces: Seq<Seq<T>>,
    limits: Seq<int>,
    piece: Seq<T>,
    limit: int,
    batch: Option<Seq<T>>,
    kept: Seq<T>,
)
    requires
        pieces.len() == limits.len(),
        add_outcome(fill(held, pieces, limits).1, piece, limit, batch, kept),
    ensures
        fill(held, pieces.push(piece), limits.push(limit)) == (match batch {
            Some(boards) => (fill(held, pieces, limits).0.push(boards), kept),
            None => (fill(held, pieces, limits).0, kept),
        }),
{
    assert(pieces.push(piece).drop_last() =~= pieces);
    assert(limits.push(limit).drop_last() =~= limits);
}

/// No position is lost, doubled or moved past another on its way through the
/// buffer: the batches and what is kept are, in order, what the buffer held and
/// what was added.
pub proof fn law_buffer_keeps_every_position<T>(
    held: Seq<T>,
    pieces: Seq<Seq<T>>,
    limits: Seq<int>,
)
    requires
        pieces.len() == limits.len(),
        forall|i: int| 0 <= i < limits.len() ==> #[trigger] limits[i] >= 0,
    ensures
        fill(held, pieces, limits).0.flatten() + fill(held, pieces, limits).1 == held
            + pieces.flatten(),
    decreases pieces.len(),
{
    if pieces.len() == 0 {
        assert(pieces.flatten() =~= Seq::<T>::empty());
        assert(fill(held, pieces, limits).0.flatten() =~= Seq::<T>::empty());
    } else {
        let before = pieces.drop_last();
        law_buffer_keeps_every_position(held, before, limits.drop_last());
        let (batches, kept) = fill(held, before, limits.drop_last());
        let all = kept + pieces.last();
        let limit = limits.last();
        before.lemma_flatten_push(pieces.last());
        assert(before.push(pieces.last()) =~= pieces);
        assert(held + pieces.flatten() =~= (held + before.flatten()) + pieces.last());
        assert(batches.flatten() + all =~= (batches.flatten() + kept) + pieces.last());
        if all.len() >= limit {
            batches.lemma_flatten_push(all.take(limit));
            assert((batches.flatten() + all.take(limit)) + all.skip(limit)
                =~= batches.flatten() + all);
        }
    }
}

/// What adding does, put as what holds of its outcome: a batch leaves if and only
/// if the items held and added reach the limit; it has exactly as many items as
/// the limit; and the batch and what is kept are together what was held and added,
/// in the same order.
pub proof fn law_add_outcome<T>(
    held: Seq<T>,
    added: Seq<T>,
    limit: int,
    batch: Option<Seq<T>>,
    kept: Seq<T>,
)
    requires
        limit >= 0,
        add_outcome(held, added, limit, batch, kept),
    ensures
        batch is Some <==> held.len() + added.len() >= limit,
        batch is Some ==> batch->0.len() == limit && batch->0 + kept == held + added,
        batch is None ==> kept == held + added,
{
    let all = held + added;
    if all.len() >= limit {
        assert(all.take(limit) + all.skip(limit) =~= all);
    }
}

/// The contents of a batch are those of its vector, one by one.
pub proof fn law_batch_view(batch: Option<Vec<ChessBoard>>)
    ensures
        batch is None <==> batch_view(batch) is None,
        batch matches Some(boards) ==> batch_view(batch)->0.len() == boards@.len() && forall|i: int|
            0 <= i < boards@.len() ==> #[trigger] batch_view(batch)->0[i] == boards@[i],
{
}

/// The larger of two numbers is one of them and no less than either, and the
/// smaller of them is one of them and no more than either.
pub proof fn law_larger_and_smaller(a: int, b: int)
    ensures
        larger(a, b) == a || larger(a, b) == b,
        larger(a, b) >= a,
        larger(a, b) >= b,
        smaller(a, b) == a || smaller(a, b) == b,
        smaller(a, b) <= a,
        smaller(a, b) <= b,
{
}

/// A buffer that is renewed keeps its positions and the size that it was made
/// for. As long as its positions fit into that size, it is full again at exactly
/// that many. If they do not, it is full at the largest of three numbers: twice
/// that size, the number of its positions, and four.
pub proof fn law_renewed_buffer(before: BufferState, after: BufferState)
    requires
        before.renews_to(after),
    ensures
        after.boards == before.boards,
        after.size == before.size,
        before.boards.len() <= before.size ==> after.limit == before.size,
        before.boards.len() > before.size ==> {
            &&& after.limit >= 2 * before.size
            &&& after.limit >= before.boards.len()
            &&& after.limit >= 4
            &&& after.limit == 2 * before.size || after.limit == before.boards.len()
                || after.limit == 4
        },
{
}

/// Every batch is as long as the limit at which the buffer was full,
/// so none is shorter than the size that the buffer was made for.
pub proof fn law_batches_are_full<T>(
    held: Seq<T>,
    pieces: Seq<Seq<T>>,
    limits: Seq<int>,
    size: int,
)
    requires
        pieces.len() == limits.len(),
        size >= 0,
        forall|i: int| 0 <= i < limits.len() ==> #[trigger] limits[i] >= size,
    ensures
        forall|k: int|
            0 <= k < fill(held, pieces, limits).0.len() ==> (#[trigger] fill(
                held,
                pieces,
                limits,
            ).0[k]).len() >= size && limits.contains(
                fill(held, pieces, limits).0[k].len() as int,
            ),
    decreases pieces.len(),
{
    if pieces.len() > 0 {
        let fewer = limits.drop_last();
        law_batches_are_full(held, pieces.drop_last(), fewer, size);
        let earlier = fill(held, pieces.drop_last(), fewer).0;
        let batches = fill(held, pieces, limits).0;
        assert forall|k: int| 0 <= k < batches.len() implies (#[trigger] batches[k]).len() >= size
            && limits.contains(batches[k].len() as int) by {
            if k < earlier.len() {
                assert(batches[k] == earlier[k]);
                let i = choose|i: int| 0 <= i < fewer.len() && fewer[i] == earlier[k].len();
                assert(limits[i] == earlier[k].len());
            } else {
                assert(limits[limits.len() - 1] == batches[k].len());
            }
        }
    }
}

/// The number of pieces that are not empty.
pub open spec fn filled_pieces<T>(pieces: Seq<Seq<T>>) -> nat
    decreases pieces.len(),
{
    if pieces.len() == 0 {
        0
    } else if pieces.last().len() == 0 {
        filled_pieces(pieces.drop_last())
    } else {
        filled_pieces(pieces.drop_last()) + 1
    }
}

pub(crate) proof fn lemma_filled_pieces_add<T>(a: Seq<Seq<T>>, b: Seq<Seq<T>>)
    ensures
        filled_pieces(a + b) == filled_pieces(a) + filled_pieces(b),
    decreases b.len(),
{
    if b.len() == 0 {
        assert(a + b =~= a);
    } else {
        lemma_filled_pieces_add(a, b.drop_last());
        assert((a + b).drop_last() =~= a + b.drop_last());
        assert((a + b).last() == b.last());
    }
}

pub(crate) proof fn lemma_filled_pieces_bound<T>(pieces: Seq<Seq<T>>)
    ensures
        filled_pieces(pieces) <= pieces.len(),
        filled_pieces(pieces) > 0 ==> pieces.flatten().len() > 0,
    decreases pieces.len(),
{
    if pieces.len() > 0 {
        let before = pieces.drop_last();
        lemma_filled_pieces_bound(before);
        assert(pieces =~= before.push(pieces.last()));
        before.lemma_flatten_push(pieces.last());
    }
}

pub(crate) proof fn lemma_filled_pieces_any_order<T>(s: Seq<Seq<T>>, t: Seq<Seq<T>>)
    requires
        s.to_multiset() == t.to_multiset(),
    ensures
        filled_pieces(s) == filled_pieces(t),
    decreases s.len(),
{
    broadcast use vstd::multiset::group_multiset_axioms;

    to_multiset_len(s);
    to_multiset_len(t);
    if s.len() > 0 {
        let s0 = s.drop_last();
        let last = s.last();
        assert(s =~= s0.push(last));
        to_multiset_build(s0, last);
        to_multiset_contains(s, last);
        to_multiset_contains(t, last);
        assert(s[s.len() - 1] == last);
        let i = choose|i: int| 0 <= i < t.len() && t[i] == last;
        to_multiset_remove(t, i);
        assert(s0.to_multiset() =~= s.to_multiset().remove(last));
        lemma_filled_pieces_any_order(s0, t.remove(i));
        assert(t.remove(i) =~= t.take(i) + t.skip(i + 1));
        assert(t =~= (t.take(i) + seq![last]) + t.skip(i + 1));
        lemma_filled_pieces_add(t.take(i), t.skip(i + 1));
        lemma_filled_pieces_add(t.take(i) + seq![last], t.skip(i + 1));
        lemma_filled_pieces_add(t.take(i), seq![last]);
        lemma_filled_pieces_add(s0, seq![last]);
        assert(s0 + seq![last] =~= s);
    }
}

/// The smaller of two numbers.
pub open spec fn smaller(a: int, b: int) -> int {
    if a < b {
        a
    } else {
        b
    }
}

/// Batches leave the buffer as positions come in. If the buffer is never full at
/// more than `most` items, then the batches, at `most` pieces each, and the items
/// kept, which stand for at most `most - 1` pieces, account for all pieces that
/// were not empty, and so for all pieces if none was.
pub proof fn law_batches_leave<T>(
    held: Seq<T>,
    pieces: Seq<Seq<T>>,
    limits: Seq<int>,
    most: int,
)
    requires
        pieces.len() == limits.len(),
        most >= 1,
        forall|i: int| 0 <= i < limits.len() ==> 0 <= #[trigger] limits[i] <= most,
    ensures
        fill(held, pieces, limits).0.len() * most + smaller(
            fill(held, pieces, limits).1.len() as int,
            most - 1,
        ) >= filled_pieces(pieces),
        (forall|i: int| 0 <= i < pieces.len() ==> (#[trigger] pieces[i]).len() > 0)
            ==> filled_pieces(pieces) == pieces.len(),
    decreases pieces.len(),
{
    if pieces.len() == 0 {
        assert(fill(held, pieces, limits).0.len() * most == 0) by (nonlinear_arith)
            requires
                fill(held, pieces, limits).0.len() == 0,
        ;
    } else {
        law_batches_leave(held, pieces.drop_last(), limits.drop_last(), most);
        let before = fill(held, pieces.drop_last(), limits.drop_last()).0.len();
        assert(limits.last() == limits[limits.len() - 1]);
        assert((before + 1) * most == before * most + most) by (nonlinear_arith);
        if forall|i: int| 0 <= i < pieces.len() ==> (#[trigger] pieces[i]).len() > 0 {
            assert(pieces[pieces.len() - 1].len() > 0);
            assert forall|i: int| 0 <= i < pieces.drop_last().len() implies (
            #[trigger] pieces.drop_last()[i]).len() > 0 by {
                assert(pieces.drop_last()[i] == pieces[i]);
            }
        }
    }
}

} // verus!
