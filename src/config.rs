use vstd::prelude::*;

verus! {

/// The message given when the command line lacks its two file names.
pub const USAGE: &'static str = "Usage: hackerman input.asm output.hack";

/// Where the assembler reads its program and writes its words.
pub struct Config {
    pub input: String,
    pub output: String,
}

impl Config {
    /// Reads the input and output paths from the command line, whose first
    /// entry is the program's name.
    pub fn new(args: &[String]) -> (r: Result<Config, &'static str>)
        ensures
            r is Err <==> args@.len() < 3,
            r matches Ok(c) ==> c.input@ == args@[1]@ && c.output@ == args@[2]@,
            r matches Err(m) ==> m@ == USAGE@,
    {
        if args.len() < 3 {
            return Err(USAGE);
        }
        let input = args[1].clone();
        let output = args[2].clone();
        Ok(Config { input, output })
    }
}

} // verus!
