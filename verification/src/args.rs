use vstd::prelude::*;
use crate::endpoint::{endpoint_of, get_url, reads};

verus! {

/// What the command line asks for.
#[derive(Debug, PartialEq, Eq)]
pub struct Args {
    /// The RPC endpoint to talk to.
    pub url: String,
}

impl Clone for Args {
    fn clone(&self) -> (copy: Args)
        ensures
            copy == *self,
    {
        Args { url: self.url.clone() }
    }
}

/// Why a command line was refused. Each fault holds the argument at which
/// reading stopped.
#[derive(Debug, PartialEq, Eq)]
pub enum ArgsError {
    /// The URL was given a second time.
    Duplicate(String),
    /// The flag for the URL is the last argument.
    MissingValue(String),
    /// The argument is not known.
    Unexpected(String),
}

impl Clone for ArgsError {
    fn clone(&self) -> (copy: ArgsError)
        ensures
            copy == *self,
    {
        match self {
            ArgsError::Duplicate(argument) => ArgsError::Duplicate(argument.clone()),
            ArgsError::MissingValue(argument) => ArgsError::MissingValue(argument.clone()),
            ArgsError::Unexpected(argument) => ArgsError::Unexpected(argument.clone()),
        }
    }
}

/// A fault with the argument it holds as the sequence of its characters.
pub enum Fault {
    /// The URL was given a second time.
    Duplicate(Seq<char>),
    /// The flag for the URL is the last argument.
    MissingValue(Seq<char>),
    /// The argument is not known.
    Unexpected(Seq<char>),
}

impl View for ArgsError {
    type V = Fault;

    open spec fn view(&self) -> Fault {
        match *self {
            ArgsError::Duplicate(argument) => Fault::Duplicate(argument@),
            ArgsError::MissingValue(argument) => Fault::MissingValue(argument@),
            ArgsError::Unexpected(argument) => Fault::Unexpected(argument@),
        }
    }
}

/// The argument is the flag that announces the URL.
pub open spec fn is_url_flag(argument: Seq<char>) -> bool {
    argument == "-u"@ || argument == "--url"@
}

/// What a command line, without the name of the program, says of the URL.
///
/// It may be empty, or hold the flag for the URL and after it the URL. It
/// is refused at the first argument that is not the flag, at a flag that
/// nothing follows, and at whatever follows the URL: as a duplicate if
/// that is the flag again, as unexpected if not.
pub open spec fn url_choice(arguments: Seq<Seq<char>>) -> Result<Option<Seq<char>>, Fault> {
    if arguments.len() == 0 {
        Ok(None)
    } else if !is_url_flag(arguments[0]) {
        Err(Fault::Unexpected(arguments[0]))
    } else if arguments.len() == 1 {
        Err(Fault::MissingValue(arguments[0]))
    } else if arguments.len() == 2 {
        Ok(Some(arguments[1]))
    } else if is_url_flag(arguments[2]) {
        Err(Fault::Duplicate(arguments[2]))
    } else {
        Err(Fault::Unexpected(arguments[2]))
    }
}

/// The arguments as sequences of characters.
pub open spec fn texts(arguments: Seq<String>) -> Seq<Seq<char>> {
    Seq::new(arguments.len(), |i: int| arguments[i]@)
}

/// Tells whether the argument is the flag that announces the URL.
pub fn names_url(argument: &String) -> (flag: bool)
    ensures
        flag == is_url_flag(argument@),
{
    reads(argument, "-u") || reads(argument, "--url")
}

/// Reads the command line, given without the name of the program, and
/// settles the endpoint to talk to.
pub fn parse_args(arguments: &Vec<String>) -> (result: Result<Args, ArgsError>)
    ensures
        match url_choice(texts(arguments@)) {
            Ok(choice) => result matches Ok(args) && args.url@ == endpoint_of(choice),
            Err(fault) => result matches Err(error) && error@ == fault,
        },
{
    let mut url: Option<String> = None;
    let mut i: usize = 0;
    while i < arguments.len()
        invariant
            i <= arguments@.len(),
            i == 0 || i == 2,
            i == 0 ==> url is None,
            i == 2 ==> url == Some(arguments@[1]) && is_url_flag(arguments@[0]@),
        decreases arguments@.len() - i,
    {
        let argument = &arguments[i];
        if names_url(argument) {
            if url.is_some() {
                return Err(ArgsError::Duplicate(argument.clone()));
            }
            if i + 1 >= arguments.len() {
                return Err(ArgsError::MissingValue(argument.clone()));
            }
            url = Some(arguments[i + 1].clone());
            i += 2;
        } else {
            return Err(ArgsError::Unexpected(argument.clone()));
        }
    }
    Ok(Args { url: get_url(url) })
}

} // verus!
