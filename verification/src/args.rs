//! The command line: which of its arguments name files.

use vstd::prelude::*;

use crate::error::Error;

verus! {

/// What to tell a user who named no file.
pub const USAGE: &'static str = "Usage: cat [file1] [file2] [file3]...";

/// The files that a command line names: every argument after the program's
/// own name, in order. A command line that names none is a usage error.
pub fn file_arguments(args: Vec<String>) -> (r: Result<Vec<String>, Error>)
    ensures
        match r {
            Ok(files) => args@.len() >= 2 && files@ == args@.subrange(1, args@.len() as int),
            Err(e) => args@.len() < 2 && e == Error::Usage,
        },
{
    if args.len() < 2 {
        return Err(Error::Usage);
    }
    let mut files = args;
    files.remove(0);
    proof {
        assert(files@ =~= args@.subrange(1, args@.len() as int));
    }
    Ok(files)
}

} // verus!
