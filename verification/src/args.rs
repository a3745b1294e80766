//! The command line of a training program: the files to load, and the name of
//! the network.
use vstd::prelude::*;
use vstd::string::*;
#[allow(unused_imports)]
use crate::loader::texts;

verus! {

/// The option that names the network.
pub open spec fn name_option() -> Seq<char> {
    seq!['-', '-', 'n', 'a', 'm', 'e']
}

/// The text begins with two dashes, as options do.
pub open spec fn is_option(text: Seq<char>) -> bool {
    text.len() >= 2 && text[0] == '-' && text[1] == '-'
}

/// Why a command line is refused.
pub enum ArgError {
    /// `--name` is not followed by a name.
    MissingName,
    /// There is no such option.
    UnknownOption(String),
    /// No file is given.
    NoPaths,
}

/// What a command line asks for.
pub struct TrainArgs {
    /// The name of the network, if one is given.
    pub net_id: Option<String>,
    /// The files to load.
    pub paths: Vec<String>,
}

/// The model of an `ArgError`.
#[verifier::ext_equal]
pub ghost enum Refusal {
    MissingName,
    UnknownOption(Seq<char>),
    NoPaths,
}

/// The model of a `TrainArgs`.
#[verifier::ext_equal]
pub ghost struct Request {
    pub net_id: Option<Seq<char>>,
    pub paths: Seq<Seq<char>>,
}

impl View for ArgError {
    type V = Refusal;

    open spec fn view(&self) -> Refusal {
        match self {
            ArgError::MissingName => Refusal::MissingName,
            ArgError::UnknownOption(text) => Refusal::UnknownOption(text@),
            ArgError::NoPaths => Refusal::NoPaths,
        }
    }
}

impl View for TrainArgs {
    type V = Request;

    open spec fn view(&self) -> Request {
        Request {
            net_id: match self.net_id {
                Some(name) => Some(name@),
                None => None,
            },
            paths: texts(self.paths@),
        }
    }
}

/// What `args` from position `i` on add to what was asked for so far. `--name`
/// takes the argument after it, which must be neither empty nor an option; of
/// several names the last one counts. Any other argument is a file, unless it
/// is an option.
pub open spec fn scan(args: Seq<Seq<char>>, i: int, so_far: Request) -> Result<Request, Refusal>
    decreases args.len() - i,
{
    if i < 0 || i >= args.len() {
        Ok(so_far)
    } else if args[i] == name_option() {
        if i + 1 < args.len() && args[i + 1].len() > 0 && !is_option(args[i + 1]) {
            scan(args, i + 2, Request { net_id: Some(args[i + 1]), ..so_far })
        } else {
            Err(Refusal::MissingName)
        }
    } else if is_option(args[i]) {
        Err(Refusal::UnknownOption(args[i]))
    } else {
        scan(args, i + 1, Request { paths: so_far.paths.push(args[i]), ..so_far })
    }
}

/// What a command line asks for, or why it is refused.
pub open spec fn understood(args: Seq<Seq<char>>) -> Result<Request, Refusal> {
    match scan(args, 0, Request { net_id: None, paths: Seq::empty() }) {
        Ok(request) => if request.paths.len() == 0 {
            Err(Refusal::NoPaths)
        } else {
            Ok(request)
        },
        Err(refusal) => Err(refusal),
    }
}

/// The model of what `parse_args` returns.
pub open spec fn outcome(result: Result<TrainArgs, ArgError>) -> Result<Request, Refusal> {
    match result {
        Ok(asked) => Ok(asked@),
        Err(error) => Err(error@),
    }
}

/// Whether the text begins with two dashes.
fn starts_as_option(text: &String) -> (yes: bool)
    ensures
        yes == is_option(text@),
{
    let chars: &str = text.as_str();
    chars.unicode_len() >= 2 && chars.get_char(0) == '-' && chars.get_char(1) == '-'
}

/// Reads a command line.
pub fn parse_args(args: &Vec<String>) -> (result: Result<TrainArgs, ArgError>)
    ensures
        outcome(result) == understood(texts(args@)),
{
    let option: String = "--name".to_owned();
    proof {
        reveal_strlit("--name");
        assert(option@ =~= name_option());
    }
    let ghost all = texts(args@);
    let mut asked = TrainArgs { net_id: None, paths: Vec::new() };
    assert(asked@ =~= Request { net_id: None, paths: Seq::empty() });
    let mut i: usize = 0;
    while i < args.len()
        invariant
            i <= args@.len(),
            all == texts(args@),
            option@ == name_option(),
            scan(all, i as int, asked@) == scan(
                all,
                0,
                Request { net_id: None, paths: Seq::empty() },
            ),
        decreases args@.len() - i,
    {
        assert(all[i as int] == args@[i as int]@);
        if args[i] == option {
            if args.len() - i > 1 && !args[i + 1].as_str().is_empty() && !starts_as_option(
                &args[i + 1],
            ) {
                assert(all[i + 1] == args@[i + 1]@);
                asked.net_id = Some(args[i + 1].clone());
                i = i + 2;
            } else {
                assert(i + 1 < all.len() ==> all[i + 1] == args@[i + 1]@);
                return Err(ArgError::MissingName);
            }
        } else if starts_as_option(&args[i]) {
            return Err(ArgError::UnknownOption(args[i].clone()));
        } else {
            let ghost before = asked@;
            asked.paths.push(args[i].clone());
            assert(asked@ =~= Request { paths: before.paths.push(all[i as int]), ..before });
            i = i + 1;
        }
    }
    if asked.paths.len() == 0 {
        Err(ArgError::NoPaths)
    } else {
        Ok(asked)
    }
}

/// One thing that a command line can say.
pub ghost enum Item {
    /// A file to load.
    File(Seq<char>),
    /// The name of the network.
    Name(Seq<char>),
}

/// The thing can be said: a file does not look like an option, and a name does
/// not either and is not empty.
pub open spec fn can_be_said(item: Item) -> bool {
    match item {
        Item::File(text) => !("--"@.is_prefix_of(text)),
        Item::Name(text) => text.len() > 0 && !("--"@.is_prefix_of(text)),
    }
}

/// How the things are said on a command line: a file by itself, a name after
/// `--name`.
pub open spec fn spelled(items: Seq<Item>) -> Seq<Seq<char>>
    decreases items.len(),
{
    if items.len() == 0 {
        Seq::empty()
    } else {
        match items.last() {
            Item::File(text) => spelled(items.drop_last()) + seq![text],
            Item::Name(text) => spelled(items.drop_last()) + seq!["--name"@, text],
        }
    }
}

/// The files among the things, in order.
pub open spec fn files_in(items: Seq<Item>) -> Seq<Seq<char>>
    decreases items.len(),
{
    if items.len() == 0 {
        Seq::empty()
    } else {
        match items.last() {
            Item::File(text) => files_in(items.drop_last()) + seq![text],
            Item::Name(_) => files_in(items.drop_last()),
        }
    }
}

/// The last name among the things.
pub open spec fn last_name_in(items: Seq<Item>) -> Option<Seq<char>>
    decreases items.len(),
{
    if items.len() == 0 {
        None
    } else {
        match items.last() {
            Item::File(_) => last_name_in(items.drop_last()),
            Item::Name(text) => Some(text),
        }
    }
}

/// An option is a text that begins with `--`, and the option for the name is
/// `--name`.
pub proof fn law_options(text: Seq<char>)
    ensures
        is_option(text) <==> "--"@.is_prefix_of(text),
        name_option() == "--name"@,
        is_option("--name"@),
{
    reveal_strlit("--");
    reveal_strlit("--name");
    assert(name_option() =~= "--name"@);
    if is_option(text) {
        assert("--"@ =~= text.subrange(0, 2));
    }
    if "--"@.is_prefix_of(text) {
        assert(text.subrange(0, 2)[0] == text[0]);
        assert(text.subrange(0, 2)[1] == text[1]);
    }
}

proof fn lemma_scan_spelled(items: Seq<Item>, more: Seq<Seq<char>>)
    requires
        forall|k: int| 0 <= k < items.len() ==> can_be_said(#[trigger] items[k]),
    ensures
        scan(spelled(items) + more, 0, Request { net_id: None, paths: Seq::empty() }) == scan(
            spelled(items) + more,
            spelled(items).len() as int,
            Request { net_id: last_name_in(items), paths: files_in(items) },
        ),
    decreases items.len(),
{
    let none = Request { net_id: None, paths: Seq::empty() };
    if items.len() > 0 {
        let init = items.drop_last();
        let last = items.last();
        assert(can_be_said(items[items.len() - 1]));
        assert forall|k: int| 0 <= k < init.len() implies can_be_said(#[trigger] init[k]) by {
            assert(init[k] == items[k]);
        }
        let all = spelled(items) + more;
        let at = spelled(init).len() as int;
        let so_far = Request { net_id: last_name_in(init), paths: files_in(init) };
        match last {
            Item::File(text) => {
                law_options(text);
                lemma_scan_spelled(init, seq![text] + more);
                assert(all =~= spelled(init) + (seq![text] + more));
                assert(all[at] == text);
                assert(so_far.paths.push(text) =~= so_far.paths + seq![text]);
                assert(scan(all, at, so_far) == scan(
                    all,
                    at + 1,
                    Request { paths: so_far.paths.push(text), ..so_far },
                ));
            },
            Item::Name(text) => {
                law_options(text);
                lemma_scan_spelled(init, seq!["--name"@, text] + more);
                assert(all =~= spelled(init) + (seq!["--name"@, text] + more));
                assert(all[at] == "--name"@);
                assert(all[at + 1] == text);
                assert(scan(all, at, so_far) == scan(
                    all,
                    at + 2,
                    Request { net_id: Some(text), ..so_far },
                ));
            },
        }
    }
}

/// A command line is understood as it was meant: whatever files and names are said
/// on it, in any order and any number, what is understood are exactly those files,
/// in that order, and the last of those names, wherever it stands. If no file was
/// said, that is what is refused.
pub proof fn law_understood_as_said(items: Seq<Item>)
    requires
        forall|k: int| 0 <= k < items.len() ==> can_be_said(#[trigger] items[k]),
    ensures
        files_in(items).len() > 0 ==> understood(spelled(items)) == Ok::<Request, Refusal>(
            Request { net_id: last_name_in(items), paths: files_in(items) },
        ),
        files_in(items).len() == 0 ==> understood(spelled(items)) == Err::<Request, Refusal>(
            Refusal::NoPaths,
        ),
{
    lemma_scan_spelled(items, Seq::empty());
    assert(spelled(items) + Seq::empty() =~= spelled(items));
}

/// A command line that goes wrong after some files and names is refused for what
/// goes wrong first, whatever follows: for a `--name` at the very end, for a
/// `--name` with an empty text or an option behind it, and for any other option,
/// which is given back.
pub proof fn law_refused_for_the_first_mistake(
    items: Seq<Item>,
    value: Seq<char>,
    option: Seq<char>,
    more: Seq<Seq<char>>,
)
    requires
        forall|k: int| 0 <= k < items.len() ==> can_be_said(#[trigger] items[k]),
    ensures
        understood(spelled(items) + seq!["--name"@]) == Err::<Request, Refusal>(
            Refusal::MissingName,
        ),
        value.len() == 0 || "--"@.is_prefix_of(value) ==> understood(
            spelled(items) + (seq!["--name"@, value] + more),
        ) == Err::<Request, Refusal>(Refusal::MissingName),
        "--"@.is_prefix_of(option) && option != "--name"@ ==> understood(
            spelled(items) + (seq![option] + more),
        ) == Err::<Request, Refusal>(Refusal::UnknownOption(option)),
{
    let at = spelled(items).len() as int;
    law_options(value);
    law_options(option);
    lemma_scan_spelled(items, seq!["--name"@]);
    assert((spelled(items) + seq!["--name"@])[at] == "--name"@);
    lemma_scan_spelled(items, seq!["--name"@, value] + more);
    let with_value = spelled(items) + (seq!["--name"@, value] + more);
    assert(with_value[at] == "--name"@);
    assert(with_value[at + 1] == value);
    lemma_scan_spelled(items, seq![option] + more);
    let with_option = spelled(items) + (seq![option] + more);
    assert(with_option[at] == option);
}

/// Every command line is one of these: files and names and nothing else, or files
/// and names and then a mistake.
pub proof fn law_every_command_line_is_covered(args: Seq<Seq<char>>)
    ensures
        exists|items: Seq<Item>|
            {
                let n = (#[trigger] spelled(items)).len() as int;
                &&& forall|k: int| 0 <= k < items.len() ==> can_be_said(#[trigger] items[k])
                &&& n <= args.len()
                &&& spelled(items) == args.take(n)
                &&& {
                    ||| n == args.len()
                    ||| args[n] == "--name"@ && (n + 1 == args.len() || args[n + 1].len() == 0
                        || "--"@.is_prefix_of(args[n + 1]))
                    ||| args[n] != "--name"@ && "--"@.is_prefix_of(args[n])
                }
            },
{
    assert(spelled(Seq::empty()) =~= args.take(0));
    lemma_covered(args, Seq::empty());
}

proof fn lemma_covered(args: Seq<Seq<char>>, said: Seq<Item>)
    requires
        forall|k: int| 0 <= k < said.len() ==> can_be_said(#[trigger] said[k]),
        spelled(said).len() <= args.len(),
        spelled(said) == args.take(spelled(said).len() as int),
    ensures
        exists|items: Seq<Item>|
            {
                let n = (#[trigger] spelled(items)).len() as int;
                &&& forall|k: int| 0 <= k < items.len() ==> can_be_said(#[trigger] items[k])
                &&& n <= args.len()
                &&& spelled(items) == args.take(n)
                &&& {
                    ||| n == args.len()
                    ||| args[n] == "--name"@ && (n + 1 == args.len() || args[n + 1].len() == 0
                        || "--"@.is_prefix_of(args[n + 1]))
                    ||| args[n] != "--name"@ && "--"@.is_prefix_of(args[n])
                }
            },
    decreases args.len() - spelled(said).len(),
{
    let n = spelled(said).len() as int;
    if n < args.len() {
        law_options(args[n]);
        if args[n] == "--name"@ {
            if n + 1 < args.len() && args[n + 1].len() > 0 && !("--"@.is_prefix_of(args[n + 1])) {
                let next = said.push(Item::Name(args[n + 1]));
                assert(next.drop_last() =~= said);
                assert(spelled(next) =~= args.take(n + 2));
                lemma_covered(args, next);
            }
        } else if !("--"@.is_prefix_of(args[n])) {
            let next = said.push(Item::File(args[n]));
            assert(next.drop_last() =~= said);
            assert(spelled(next) =~= args.take(n + 1));
            lemma_covered(args, next);
        }
    }
}

/// Saying one thing more on a command line that is accepted changes what is
/// understood by just that: one more file at the end, or another name.
pub proof fn law_one_more_thing(args: Seq<Seq<char>>, file: Seq<char>, name: Seq<char>)
    requires
        understood(args) is Ok,
        !("--"@.is_prefix_of(file)),
        !("--"@.is_prefix_of(name)),
        name.len() > 0,
    ensures
        understood(args + seq![file]) == Ok::<Request, Refusal>(
            Request {
                net_id: understood(args)->Ok_0.net_id,
                paths: understood(args)->Ok_0.paths + seq![file],
            },
        ),
        understood(args + seq!["--name"@, name]) == Ok::<Request, Refusal>(
            Request { net_id: Some(name), paths: understood(args)->Ok_0.paths },
        ),
{
    law_every_command_line_is_covered(args);
    let items = choose|items: Seq<Item>|
        {
            let n = (#[trigger] spelled(items)).len() as int;
            &&& forall|k: int| 0 <= k < items.len() ==> can_be_said(#[trigger] items[k])
            &&& n <= args.len()
            &&& spelled(items) == args.take(n)
            &&& {
                ||| n == args.len()
                ||| args[n] == "--name"@ && (n + 1 == args.len() || args[n + 1].len() == 0
                    || "--"@.is_prefix_of(args[n + 1]))
                ||| args[n] != "--name"@ && "--"@.is_prefix_of(args[n])
            }
        };
    let n = spelled(items).len() as int;
    if n < args.len() {
        if args[n] == "--name"@ {
            if n + 1 == args.len() {
                law_refused_for_the_first_mistake(items, name, name, Seq::empty());
                assert(spelled(items) + seq!["--name"@] =~= args);
            } else {
                law_refused_for_the_first_mistake(items, args[n + 1], name, args.skip(n + 2));
                assert(spelled(items) + (seq!["--name"@, args[n + 1]] + args.skip(n + 2))
                    =~= args);
            }
        } else {
            law_refused_for_the_first_mistake(items, name, args[n], args.skip(n + 1));
            assert(spelled(items) + (seq![args[n]] + args.skip(n + 1)) =~= args);
        }
    }
    assert(args.take(n) =~= args);
    let with_file = items.push(Item::File(file));
    let with_name = items.push(Item::Name(name));
    assert(with_file.drop_last() =~= items);
    assert(with_name.drop_last() =~= items);
    assert forall|k: int| 0 <= k < with_file.len() implies can_be_said(#[trigger] with_file[k]) by {
        if k < items.len() {
            assert(with_file[k] == items[k]);
        }
    }
    assert forall|k: int| 0 <= k < with_name.len() implies can_be_said(#[trigger] with_name[k]) by {
        if k < items.len() {
            assert(with_name[k] == items[k]);
        }
    }
    law_understood_as_said(items);
    law_understood_as_said(with_file);
    law_understood_as_said(with_name);
}

/// What `parse_args` gives is read off as it stands: the texts that it holds, and
/// the same reason.
pub proof fn law_outcome_is_read_off(asked: TrainArgs, text: String)
    ensures
        outcome(Ok(asked)) is Ok,
        asked.net_id is None <==> outcome(Ok(asked))->Ok_0.net_id is None,
        asked.net_id matches Some(name) ==> outcome(Ok(asked))->Ok_0.net_id == Some(name@),
        outcome(Ok(asked))->Ok_0.paths.len() == asked.paths@.len(),
        forall|i: int|
            0 <= i < asked.paths@.len() ==> #[trigger] outcome(Ok(asked))->Ok_0.paths[i]
                == asked.paths@[i]@,
        outcome(Err(ArgError::MissingName)) == Err::<Request, Refusal>(Refusal::MissingName),
        outcome(Err(ArgError::NoPaths)) == Err::<Request, Refusal>(Refusal::NoPaths),
        outcome(Err(ArgError::UnknownOption(text))) == Err::<Request, Refusal>(
            Refusal::UnknownOption(text@),
        ),
{
}

} // verus!
