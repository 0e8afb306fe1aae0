use vstd::prelude::*;

use crate::text::{str_eq, strip_trailing, trim_end_char};

verus! {

broadcast use vstd::string::group_string_axioms;

/// The command line of the grep tool: a word (a regex) and the files to
/// search, if any.
pub struct Args {
    pub word: String,
    pub files: Option<Vec<String>>,
}

impl Args {
    /// The files to search: those given, or none.
    pub fn file_list(self) -> (r: Vec<String>)
        ensures
            match self.files {
                Some(f) => r == f,
                None => r@.len() == 0,
            },
    {
        match self.files {
            Some(f) => f,
            None => Vec::new(),
        }
    }
}

/// The lines of one input, with the name it is known by.
pub struct Source {
    pub source: String,
    pub lines: Vec<String>,
}

/// Something that can be read as lines.
pub trait ReadLine {
    fn lines(&self) -> Source;
}

/// Where lines are read from.
pub enum ReadTarget {
    Stdin,
    File(String),
}

/// Whether `files` asks for standard input: it names no file, or names `-`.
pub open spec fn reads_stdin(files: Seq<String>) -> bool {
    files.len() == 0 || exists|i: int| 0 <= i < files.len() && files[i]@ == "-"@
}

/// A `-` anywhere among the file arguments asks for standard input, and
/// file arguments none of which is `-` do not.
pub proof fn law_dash_anywhere_reads_stdin(files: Seq<String>, i: int)
    ensures
        0 <= i < files.len() && files[i]@ == "-"@ ==> reads_stdin(files),
        files.len() > 0 && (forall|j: int| 0 <= j < files.len() ==> files[j]@ != "-"@)
            ==> !reads_stdin(files),
{
}

/// The inputs that the file arguments name: standard input alone where no
/// file is named or one of them is `-`, else each file in turn.
pub fn parse_read_lines(files: Vec<String>) -> (r: Vec<ReadTarget>)
    ensures
        reads_stdin(files@) ==> r@.len() == 1 && r@[0] is Stdin,
        forall|i: int|
            0 <= i < files@.len() && (#[trigger] files@[i])@ == "-"@ ==> r@.len() == 1
                && r@[0] is Stdin,
        files@.len() > 0 && (forall|i: int| 0 <= i < files@.len() ==> (#[trigger] files@[i])@
            != "-"@) ==> r@.len() == files@.len(),
        !reads_stdin(files@) ==> r@.len() == files@.len() && forall|i: int|
            0 <= i < files@.len() ==> (#[trigger] r@[i] matches ReadTarget::File(f) && f
                == files@[i]),
{
    let mut any_dash = false;
    let mut i: usize = 0;
    while i < files.len()
        invariant
            i <= files@.len(),
            any_dash <==> exists|j: int| 0 <= j < i && files@[j]@ == "-"@,
        decreases files@.len() - i,
    {
        if str_eq(files[i].as_str(), "-") {
            any_dash = true;
        }
        i = i + 1;
    }
    if files.len() == 0 || any_dash {
        let mut r: Vec<ReadTarget> = Vec::new();
        r.push(ReadTarget::Stdin);
        return r;
    }
    let mut r: Vec<ReadTarget> = Vec::new();
    let mut i: usize = 0;
    while i < files.len()
        invariant
            i <= files@.len(),
            r@.len() == i,
            forall|j: int|
                0 <= j < i ==> (#[trigger] r@[j] matches ReadTarget::File(f) && f == files@[j]),
        decreases files@.len() - i,
    {
        r.push(ReadTarget::File(files[i].clone()));
        i = i + 1;
    }
    r
}

/// What a line read from standard input stands for: the line without its
/// trailing newlines, or `None` where that is `exit`, which ends the input.
pub open spec fn stdin_item_spec(line: Seq<char>) -> Option<Seq<char>> {
    let l = strip_trailing(line, '\n');
    if l == "exit"@ {
        None
    } else {
        Some(l)
    }
}

/// Turns a line read from standard input into the item it stands for.
pub fn stdin_item(line: String) -> (r: Option<String>)
    ensures
        match stdin_item_spec(line@) {
            Some(l) => r matches Some(s) && s@ == l,
            None => r is None,
        },
{
    let trimmed = trim_end_char(line.as_str(), '\n');
    if str_eq(trimmed, "exit") {
        None
    } else {
        Some(trimmed.to_owned())
    }
}

} // verus!
