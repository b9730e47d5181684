//! The command line: which mode it asks for and which inputs it names, and
//! the report on an input that cannot be opened.

use vstd::prelude::*;
use vstd::string::StringExecFns;

verus! {

/// An input as the command line names it, in the mathematical view.
pub enum Designator {
    /// The standard input.
    Stdin,
    /// The file at this path.
    File(Seq<char>),
}

/// An input as the command line names it.
#[derive(Debug, PartialEq, Eq)]
pub enum Input {
    /// The standard input.
    Stdin,
    /// The file at this path.
    File(String),
}

impl View for Input {
    type V = Designator;

    open spec fn view(&self) -> Designator {
        match self {
            Input::Stdin => Designator::Stdin,
            Input::File(path) => Designator::File(path@),
        }
    }
}

/// What a command line asks for.
#[derive(Debug, PartialEq, Eq)]
pub struct Invocation {
    /// Whether each read is to be written through at once.
    pub unbuffered: bool,
    /// The inputs to copy, in order. Never empty.
    pub inputs: Vec<Input>,
}

/// The command line asks for unbuffered copying: its first argument, and
/// only that one, is looked at for `-u`.
pub open spec fn asks_unbuffered(args: Seq<Seq<char>>) -> bool {
    args.len() > 0 && args[0] == "-u"@
}

/// The arguments that name inputs: all but a leading `-u`.
pub open spec fn input_names(args: Seq<Seq<char>>) -> Seq<Seq<char>> {
    if asks_unbuffered(args) {
        args.skip(1)
    } else {
        args
    }
}

/// The input that one argument names: `-` is the standard input, anything
/// else a file.
pub open spec fn designate(name: Seq<char>) -> Designator {
    if name == "-"@ {
        Designator::Stdin
    } else {
        Designator::File(name)
    }
}

/// The inputs that `names` stand for: one each, in order, and the standard
/// input where there is no name at all.
pub open spec fn resolve(names: Seq<Seq<char>>) -> Seq<Designator> {
    if names.len() == 0 {
        seq![Designator::Stdin]
    } else {
        Seq::new(names.len(), |i: int| designate(names[i]))
    }
}

/// The arguments as sequences of characters.
pub open spec fn texts(args: Seq<String>) -> Seq<Seq<char>> {
    Seq::new(args.len(), |i: int| args[i]@)
}

/// The inputs as designators.
pub open spec fn designators(inputs: Seq<Input>) -> Seq<Designator> {
    Seq::new(inputs.len(), |i: int| inputs[i]@)
}

/// Reads the command line, given without the program's name.
pub fn parse_args(args: &Vec<String>) -> (invocation: Invocation)
    ensures
        invocation.unbuffered == asks_unbuffered(texts(args@)),
        designators(invocation.inputs@) == resolve(input_names(texts(args@))),
        invocation.inputs@.len() > 0,
{
    let flag = String::from_str("-u");
    let dash = String::from_str("-");
    let unbuffered = args.len() > 0 && args[0] == flag;
    let first: usize = if unbuffered {
        1
    } else {
        0
    };
    let ghost names = input_names(texts(args@));
    assert(names =~= texts(args@).skip(first as int));
    let mut inputs: Vec<Input> = Vec::new();
    if first == args.len() {
        inputs.push(Input::Stdin);
        assert(designators(inputs@) =~= resolve(names));
        return Invocation { unbuffered, inputs };
    }
    let mut i: usize = first;
    while i < args.len()
        invariant
            first <= i <= args.len(),
            first < args.len(),
            dash@ == "-"@,
            names == texts(args@).skip(first as int),
            inputs@.len() == i - first,
            forall|k: int|
                0 <= k < inputs@.len() ==> (#[trigger] inputs@[k])@ == designate(names[k]),
        decreases args.len() - i,
    {
        let input = if args[i] == dash {
            Input::Stdin
        } else {
            Input::File(args[i].clone())
        };
        assert(names[i - first] == args@[i as int]@);
        inputs.push(input);
        i += 1;
    }
    assert(designators(inputs@) =~= resolve(names));
    Invocation { unbuffered, inputs }
}

/// How the report on an input that could not be opened begins.
pub open spec fn report_lead() -> Seq<char> {
    "cat: cannot open "@
}

/// The report on an input that could not be opened: it names the input and
/// gives the cause.
pub fn open_failure_message(name: &str, cause: &str) -> (message: String)
    ensures
        message@ == report_lead() + name@ + ": "@ + cause@,
        message@.subrange(
            report_lead().len() as int,
            report_lead().len() + name@.len() as int,
        ) == name@,
{
    let mut message = String::from_str("cat: cannot open ");
    message.append(name);
    message.append(": ");
    message.append(cause);
    proof {
        assert(message@.subrange(
            report_lead().len() as int,
            report_lead().len() + name@.len() as int,
        ) =~= name@);
    }
    message
}

} // verus!
