//! What the command line asks for.

use crate::text;
use vstd::prelude::*;
use vstd::string::*;

verus! {

/// What to run: the file to read, if one was named, and the bitrates in kbps.
pub struct Options {
    pub input: Option<String>,
    pub bitrates: Vec<i32>,
}

/// What the command line asks for.
pub enum Command {
    Help,
    Run(Options),
}

/// Why a command line is refused.
pub enum ArgError {
    /// `--bitrates` is the last argument.
    NoValue,
    /// A field of the bitrate list, as it was given.
    NotNumber(String),
    UnknownFlag(String),
}

/// What a command line means.
pub enum Meaning {
    Help,
    Run { input: Option<Seq<char>>, bitrates: Seq<i32> },
    NoValue,
    NotNumber(Seq<char>),
    UnknownFlag(Seq<char>),
}

/// The meaning of what was returned.
pub open spec fn meaning(r: Result<Command, ArgError>) -> Meaning {
    match r {
        Ok(Command::Help) => Meaning::Help,
        Ok(Command::Run(o)) => Meaning::Run { input: text_of(o.input), bitrates: o.bitrates@ },
        Err(ArgError::NoValue) => Meaning::NoValue,
        Err(ArgError::NotNumber(s)) => Meaning::NotNumber(s@),
        Err(ArgError::UnknownFlag(s)) => Meaning::UnknownFlag(s@),
    }
}

pub open spec fn text_of(s: Option<String>) -> Option<Seq<char>> {
    match s {
        None => None,
        Some(t) => Some(t@),
    }
}

/// The numbers in a list of fields, or the first field that is not one. White space around a
/// number does not count.
pub open spec fn numbers(fs: Seq<Seq<char>>) -> Result<Seq<i32>, Seq<char>>
    decreases fs.len(),
{
    if fs.len() == 0 {
        Ok(Seq::empty())
    } else {
        match numbers(fs.drop_last()) {
            Err(f) => Err(f),
            Ok(before) => match text::number(text::trimmed(fs.last())) {
                None => Err(fs.last()),
                Some(n) => Ok(before.push(n)),
            },
        }
    }
}

/// The meaning of the arguments that are left, given what those before them said. A later
/// value replaces an earlier one.
pub open spec fn interpreted(
    args: Seq<Seq<char>>,
    input: Option<Seq<char>>,
    bitrates: Seq<i32>,
) -> Meaning
    decreases args.len(),
{
    if args.len() == 0 {
        Meaning::Run { input, bitrates }
    } else if args[0] == "--bitrates"@ {
        if args.len() == 1 {
            Meaning::NoValue
        } else {
            match numbers(text::fields(args[1], ',')) {
                Err(f) => Meaning::NotNumber(f),
                Ok(list) => interpreted(args.skip(2), input, list),
            }
        }
    } else if args[0] == "-h"@ || args[0] == "--help"@ {
        Meaning::Help
    } else if args[0].len() > 0 && args[0][0] == '-' {
        Meaning::UnknownFlag(args[0])
    } else {
        interpreted(args.skip(1), Some(args[0]), bitrates)
    }
}

proof fn lemma_first_error(fs: Seq<Seq<char>>, k: int)
    requires
        0 <= k <= fs.len(),
        numbers(fs.take(k)) is Err,
    ensures
        numbers(fs) == numbers(fs.take(k)),
    decreases fs.len() - k,
{
    if k == fs.len() {
        assert(fs.take(k) =~= fs);
    } else {
        assert(fs.take(k + 1).drop_last() =~= fs.take(k));
        lemma_first_error(fs, k + 1);
    }
}

/// The bitrates in a comma-separated list, or the first field that is not a number.
pub fn bitrate_list(s: &str) -> (r: Result<Vec<i32>, String>)
    ensures
        match r {
            Ok(list) => numbers(text::fields(s@, ',')) == Ok::<Seq<i32>, Seq<char>>(list@),
            Err(f) => numbers(text::fields(s@, ',')) == Err::<Seq<i32>, Seq<char>>(f@),
        },
{
    let parts: Vec<String> = text::split(s, ',');
    let ghost fs = text::texts(parts@);
    let mut list: Vec<i32> = Vec::new();
    let n: usize = parts.len();
    let mut i: usize = 0;
    assert(fs.take(0) =~= Seq::empty());
    while i < n
        invariant
            n == parts@.len(),
            i <= n,
            fs == text::texts(parts@),
            fs == text::fields(s@, ','),
            numbers(fs.take(i as int)) == Ok::<Seq<i32>, Seq<char>>(list@),
        decreases n - i,
    {
        let part: &str = parts[i].as_str();
        proof {
            assert(fs[i as int] == part@);
            assert(fs.take(i + 1).drop_last() =~= fs.take(i as int));
        }
        match text::parse_i32(text::trim(part)) {
            None => {
                proof {
                    lemma_first_error(fs, i + 1);
                }
                return Err(part.to_owned());
            },
            Some(x) => {
                list.push(x);
            },
        }
        i = i + 1;
    }
    assert(fs.take(n as int) =~= fs);
    Ok(list)
}

/// Reads the arguments after the program's name. Without `--bitrates`, three are tried.
pub fn parse(args: &Vec<String>) -> (r: Result<Command, ArgError>)
    ensures
        meaning(r) == interpreted(text::texts(args@), None, seq![24i32, 64, 128]),
{
    let ghost all = text::texts(args@);
    let mut input: Option<String> = None;
    let mut bitrates: Vec<i32> = vec![24, 64, 128];
    let n: usize = args.len();
    let mut i: usize = 0;
    proof {
        assert(bitrates@ =~= seq![24i32, 64, 128]);
        assert(all.skip(0) =~= all);
    }
    while i < n
        invariant
            n == args@.len(),
            i <= n,
            all == text::texts(args@),
            interpreted(all, None, seq![24i32, 64, 128]) == interpreted(
                all.skip(i as int),
                text_of(input),
                bitrates@,
            ),
        decreases n - i,
    {
        let arg: &str = args[i].as_str();
        let ghost rest = all.skip(i as int);
        proof {
            assert(rest[0] == arg@);
            assert(rest.skip(1) =~= all.skip(i + 1));
        }
        if text::same(arg, "--bitrates") {
            i = i + 1;
            if i == n {
                return Err(ArgError::NoValue);
            }
            proof {
                assert(rest[1] == args@[i as int]@);
                assert(rest.skip(2) =~= all.skip(i + 1));
            }
            match bitrate_list(args[i].as_str()) {
                Err(f) => return Err(ArgError::NotNumber(f)),
                Ok(list) => {
                    bitrates = list;
                },
            }
        } else if text::same(arg, "-h") || text::same(arg, "--help") {
            return Ok(Command::Help);
        } else if !arg.is_empty() && arg.get_char(0) == '-' {
            return Err(ArgError::UnknownFlag(arg.to_owned()));
        } else {
            input = Some(arg.to_owned());
        }
        i = i + 1;
    }
    Ok(Command::Run(Options { input, bitrates }))
}

impl ArgError {
    /// What the user is told.
    pub open spec fn told(self) -> Seq<char> {
        match self {
            ArgError::NoValue => "--bitrates needs a value, e.g. 32,64"@,
            ArgError::NotNumber(s) => "not a number: "@ + s@,
            ArgError::UnknownFlag(s) => "unknown flag "@ + s@,
        }
    }

    /// What the user is told.
    pub fn message(&self) -> (m: String)
        ensures
            m@ == self.told(),
    {
        match self {
            ArgError::NoValue => "--bitrates needs a value, e.g. 32,64".to_owned(),
            ArgError::NotNumber(s) => "not a number: ".to_owned().concat(s.as_str()),
            ArgError::UnknownFlag(s) => "unknown flag ".to_owned().concat(s.as_str()),
        }
    }
}

/// The bitrates are the numbers in the fields, one for each and in order; the field that is
/// refused is the first that is no number.
pub proof fn law_numbers(fs: Seq<Seq<char>>)
    ensures
        match numbers(fs) {
            Ok(list) => {
                &&& list.len() == fs.len()
                &&& forall|i: int|
                    0 <= i < fs.len() ==> text::number(text::trimmed(#[trigger] fs[i])) == Some(
                        list[i],
                    )
            },
            Err(f) => exists|k: int|
                0 <= k < fs.len() && #[trigger] fs[k] == f && text::number(text::trimmed(f)) is None
                    && forall|i: int|
                    0 <= i < k ==> text::number(text::trimmed(#[trigger] fs[i])) is Some,
        },
    decreases fs.len(),
{
    if fs.len() > 0 {
        let before = fs.drop_last();
        law_numbers(before);
        match numbers(before) {
            Err(f) => {
                let k = choose|k: int|
                    0 <= k < before.len() && #[trigger] before[k] == f && text::number(
                        text::trimmed(f),
                    ) is None && forall|i: int|
                        0 <= i < k ==> text::number(text::trimmed(#[trigger] before[i])) is Some;
                assert(fs[k] == f);
                assert forall|i: int| 0 <= i < k implies text::number(
                    text::trimmed(#[trigger] fs[i]),
                ) is Some by {
                    assert(before[i] == fs[i]);
                }
            },
            Ok(list) => {
                let last = fs.len() - 1;
                assert(fs[last] == fs.last());
                assert forall|i: int| 0 <= i < last implies text::number(
                    text::trimmed(#[trigger] fs[i]),
                ) == Some(list[i]) by {
                    assert(before[i] == fs[i]);
                }
            },
        }
    }
}

/// An argument that names a file: it does not begin with a dash.
pub open spec fn plain(arg: Seq<char>) -> bool {
    arg.len() > 0 ==> arg[0] != '-'
}

pub open spec fn all_plain(args: Seq<Seq<char>>) -> bool {
    forall|i: int| 0 <= i < args.len() ==> plain(#[trigger] args[i])
}

/// The last of some names, or what was there before.
pub open spec fn last_named(args: Seq<Seq<char>>, before: Option<Seq<char>>) -> Option<Seq<char>> {
    if args.len() == 0 {
        before
    } else {
        Some(args.last())
    }
}

/// Names in front of other arguments only set the input, and the last of them counts.
pub proof fn law_last_name_counts(
    names: Seq<Seq<char>>,
    rest: Seq<Seq<char>>,
    input: Option<Seq<char>>,
    bitrates: Seq<i32>,
)
    requires
        all_plain(names),
    ensures
        interpreted(names + rest, input, bitrates) == interpreted(
            rest,
            last_named(names, input),
            bitrates,
        ),
        interpreted(names, input, bitrates) == (Meaning::Run {
            input: last_named(names, input),
            bitrates,
        }),
    decreases names.len(),
{
    reveal_strlit("--bitrates");
    reveal_strlit("-h");
    reveal_strlit("--help");
    if names.len() == 0 {
        assert(names + rest =~= rest);
    } else {
        let more = names.drop_first();
        let name = names[0];
        assert(plain(names[0]));
        assert forall|i: int| 0 <= i < more.len() implies plain(#[trigger] more[i]) by {
            assert(more[i] == names[i + 1]);
        }
        law_last_name_counts(more, rest, Some(name), bitrates);
        assert("--bitrates"@[0] == '-' && "-h"@[0] == '-' && "--help"@[0] == '-');
        assert((names + rest).skip(1) =~= more + rest);
        assert(names.skip(1) =~= more);
        if more.len() > 0 {
            assert(more.last() == names.last());
        }
    }
}

/// What a command line means that names some files and, after them, one option.
pub proof fn law_options(
    names: Seq<Seq<char>>,
    option: Seq<char>,
    rest: Seq<Seq<char>>,
    input: Option<Seq<char>>,
    bitrates: Seq<i32>,
)
    requires
        all_plain(names),
        !plain(option),
    ensures
        ({
            let meant = interpreted(names.push(option) + rest, input, bitrates);
            let bare = interpreted(names.push(option), input, bitrates);
            &&& option == "-h"@ || option == "--help"@ ==> meant == Meaning::Help
            &&& option == "--bitrates"@ ==> bare == Meaning::NoValue
            &&& option != "-h"@ && option != "--help"@ && option != "--bitrates"@ ==> meant
                == Meaning::UnknownFlag(option)
        }),
{
    reveal_strlit("--bitrates");
    reveal_strlit("-h");
    reveal_strlit("--help");
    let tail = seq![option] + rest;
    law_last_name_counts(names, tail, input, bitrates);
    law_last_name_counts(names, seq![option], input, bitrates);
    assert(names.push(option) + rest =~= names + tail);
    assert(names.push(option) =~= names + seq![option]);
    assert("--bitrates"@.len() == 10 && "-h"@.len() == 2 && "--help"@.len() == 6);
}

/// Names, then a list of bitrates, then names again: the last name of all is the input, and the
/// bitrates are those of the list, or the field that is no number is refused.
pub proof fn law_bitrates_are_taken(
    names: Seq<Seq<char>>,
    list: Seq<char>,
    more: Seq<Seq<char>>,
    input: Option<Seq<char>>,
    bitrates: Seq<i32>,
)
    requires
        all_plain(names),
        all_plain(more),
    ensures
        interpreted(names + seq!["--bitrates"@, list] + more, input, bitrates) == (match numbers(
            text::fields(list, ','),
        ) {
            Ok(taken) => Meaning::Run {
                input: last_named(names + more, input),
                bitrates: taken,
            },
            Err(f) => Meaning::NotNumber(f),
        }),
{
    let tail = seq!["--bitrates"@, list] + more;
    law_last_name_counts(names, tail, input, bitrates);
    assert(names + seq!["--bitrates"@, list] + more =~= names + tail);
    assert(tail[0] == "--bitrates"@ && tail[1] == list);
    assert(tail.skip(2) =~= more);
    if let Ok(taken) = numbers(text::fields(list, ',')) {
        law_last_name_counts(more, Seq::empty(), last_named(names, input), taken);
        if more.len() > 0 {
            assert((names + more).last() == more.last());
        } else {
            assert(names + more =~= names);
        }
    }
}

/// What was returned means what is in it.
pub proof fn law_meaning(o: Options, s: String)
    ensures
        meaning(Ok(Command::Help)) == Meaning::Help,
        meaning(Ok(Command::Run(o))) matches Meaning::Run { input, bitrates } && bitrates
            == o.bitrates@ && (match (input, o.input) {
            (Some(a), Some(b)) => a == b@,
            (None, None) => true,
            _ => false,
        }),
        text_of(None) == None::<Seq<char>>,
        text_of(Some(s)) == Some(s@),
        meaning(Err(ArgError::NoValue)) == Meaning::NoValue,
        meaning(Err(ArgError::NotNumber(s))) == Meaning::NotNumber(s@),
        meaning(Err(ArgError::UnknownFlag(s))) == Meaning::UnknownFlag(s@),
{
}

/// What the user is told of an argument ends with the argument.
pub proof fn law_refusals_name_the_argument(s: String)
    ensures
        ArgError::NotNumber(s).told().len() >= s@.len(),
        ArgError::NotNumber(s).told().skip(ArgError::NotNumber(s).told().len() - s@.len()) == s@,
        ArgError::UnknownFlag(s).told().len() >= s@.len(),
        ArgError::UnknownFlag(s).told().skip(ArgError::UnknownFlag(s).told().len() - s@.len())
            == s@,
{
    let a = ArgError::NotNumber(s).told();
    let b = ArgError::UnknownFlag(s).told();
    assert(a.skip(a.len() - s@.len()) =~= s@);
    assert(b.skip(b.len() - s@.len()) =~= s@);
}

} // verus!
