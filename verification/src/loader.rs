//! The loader's settings.
use vstd::prelude::*;
use bulletformat::ChessBoard;

verus! {

/// The size of one position in memory, in bytes.
pub const BOARD_BYTES: usize = 32;

/// Calls `std::mem::size_of` for `bulletformat::ChessBoard`. The result is the
/// size that `bulletformat` itself asserts at compile time.
#[verifier::external_body]
fn board_bytes() -> (bytes: usize)
    ensures
        bytes == BOARD_BYTES,
{
    std::mem::size_of::<ChessBoard>()
}

/// Which files to load, and how. `F` is whatever decides which positions of a
/// game are kept; the settings only carry it.
pub struct WakFormatLoader<F> {
    file_paths: Vec<String>,
    buffer_size: usize,
    threads: usize,
    filter: F,
}

impl<F: Clone> Clone for WakFormatLoader<F> {
    fn clone(&self) -> (copy: Self)
        ensures
            copy@.file_paths == self@.file_paths,
            copy@.buffer_size == self@.buffer_size,
            copy@.threads == self@.threads,
            cloned(self@.filter, copy@.filter),
    {
        proof {
            use_type_invariant(self);
        }
        let file_paths: Vec<String> = self.file_paths.clone();
        assert(texts(file_paths@) =~= texts(self.file_paths@));
        WakFormatLoader {
            file_paths,
            buffer_size: self.buffer_size,
            threads: self.threads,
            filter: self.filter.clone(),
        }
    }
}

/// The settings of a loader.
#[verifier::ext_equal]
pub ghost struct LoaderSettings<F> {
    /// The files, in the order in which they are read.
    pub file_paths: Seq<Seq<char>>,
    /// The number of positions that a shuffle buffer is made for.
    pub buffer_size: usize,
    /// The number of workers that decode games.
    pub threads: usize,
    /// The filter that is handed to the decoder.
    pub filter: F,
}

/// The texts of a sequence of strings.
pub open spec fn texts(strings: Seq<String>) -> Seq<Seq<char>> {
    strings.map_values(|s: String| s@)
}

/// The texts of a sequence of string slices.
pub open spec fn str_texts(strings: Seq<&str>) -> Seq<Seq<char>> {
    strings.map_values(|s: &str| s@)
}

/// How many messages each channel between the stages can hold.
pub struct QueueLengths {
    /// Batches of games, from the reading to the decoding.
    pub games: usize,
    /// Decoded positions, from the decoding to the mixing.
    pub boards: usize,
    /// Shuffled batches, from the mixing to the handing out.
    pub batches: usize,
    /// Requests to stop, from a stage to the one before it.
    pub stops: usize,
}

impl<F> View for WakFormatLoader<F> {
    type V = LoaderSettings<F>;

    closed spec fn view(&self) -> LoaderSettings<F> {
        LoaderSettings {
            file_paths: texts(self.file_paths@),
            buffer_size: self.buffer_size,
            threads: self.threads,
            filter: self.filter,
        }
    }
}

impl<F> WakFormatLoader<F> {
    /// Two full shuffle buffers can be held in memory at once.
    #[verifier::type_invariant]
    spec fn well_formed(self) -> bool {
        self.buffer_size * BOARD_BYTES * 2 <= usize::MAX
    }

    /// A loader for one file.
    pub fn new(path: &str, buffer_size_mb: usize, threads: usize, filter: F) -> (loader: Self)
        requires
            buffer_size_mb * 1024 * 1024 <= usize::MAX,
        ensures
            loader@.file_paths == seq![path@],
            loader@.buffer_size * BOARD_BYTES * 2 == buffer_size_mb * 1024 * 1024,
            loader@.threads == threads,
            loader@.filter == filter,
    {
        let paths = [path];
        assert(str_texts(paths@) =~= seq![path@]);
        Self::new_concat_multiple(&paths, buffer_size_mb, threads, filter)
    }

    /// A loader for several files, which are read one after the other. A shuffle
    /// buffer takes half of `buffer_size_mb` mebibytes.
    pub fn new_concat_multiple(
        paths: &[&str],
        buffer_size_mb: usize,
        threads: usize,
        filter: F,
    ) -> (loader: Self)
        requires
            buffer_size_mb * 1024 * 1024 <= usize::MAX,
        ensures
            loader@.file_paths == str_texts(paths@),
            loader@.buffer_size * BOARD_BYTES * 2 == buffer_size_mb * 1024 * 1024,
            loader@.threads == threads,
            loader@.filter == filter,
    {
        let mut file_paths: Vec<String> = Vec::new();
        for i in 0..paths.len()
            invariant
                file_paths@.len() == i,
                forall|j: int| 0 <= j < i ==> #[trigger] file_paths@[j]@ == paths@[j]@,
        {
            file_paths.push(paths[i].to_owned());
        }
        assert(texts(file_paths@) =~= str_texts(paths@));
        let buffer_size: usize = buffer_size_mb * 1024 * 1024 / board_bytes() / 2;
        WakFormatLoader { file_paths, buffer_size, threads, filter }
    }

    /// The files, in the order in which they are read.
    pub fn file_paths(&self) -> (paths: &Vec<String>)
        ensures
            texts(paths@) == self@.file_paths,
    {
        &self.file_paths
    }

    /// The number of positions that a shuffle buffer is made for.
    pub fn buffer_size(&self) -> (size: usize)
        ensures
            size == self@.buffer_size,
            size * BOARD_BYTES * 2 <= usize::MAX,
    {
        proof {
            use_type_invariant(self);
        }
        self.buffer_size
    }

    /// The number of workers that decode games.
    pub fn threads(&self) -> (threads: usize)
        ensures
            threads == self@.threads,
    {
        self.threads
    }

    /// How many messages each channel can hold. Every worker has room for four
    /// messages, and a shuffled batch is passed on only when it is asked for.
    pub fn queue_lengths(&self) -> (lengths: QueueLengths)
        requires
            4 * self@.threads <= usize::MAX,
        ensures
            lengths.games == 4,
            lengths.boards == 4 * self@.threads,
            lengths.batches == 0,
            lengths.stops == 1,
    {
        QueueLengths { games: 4, boards: 4 * self.threads, batches: 0, stops: 1 }
    }

    /// The filter that is handed to the decoder.
    pub fn filter(&self) -> (filter: &F)
        ensures
            *filter == self@.filter,
    {
        &self.filter
    }
}

/// The texts of strings are their texts one by one, none left out and none moved.
pub proof fn law_texts(strings: Seq<String>, slices: Seq<&str>)
    ensures
        texts(strings).len() == strings.len(),
        forall|i: int| 0 <= i < strings.len() ==> #[trigger] texts(strings)[i] == strings[i]@,
        str_texts(slices).len() == slices.len(),
        forall|i: int| 0 <= i < slices.len() ==> #[trigger] str_texts(slices)[i] == slices[i]@,
{
}

/// A mebibyte holds two buffers of 16384 positions.
pub proof fn law_positions_in_a_mebibyte(buffer_size: int, buffer_size_mb: int)
    requires
        buffer_size * BOARD_BYTES * 2 == buffer_size_mb * 1024 * 1024,
    ensures
        buffer_size == buffer_size_mb * 16384,
{
}

} // verus!
