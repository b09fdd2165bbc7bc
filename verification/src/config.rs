use vstd::prelude::*;

verus! {

/// Where a run reads its document and where it leaves the result.
#[derive(Debug, Clone, PartialEq, Eq)]
pub struct Config {
    pub input_filename: String,
    pub output_filename: String,
}

impl Config {
    /// Reads the file names from a command line: the argument behind the
    /// program's name is the input, the one behind that the output. Further
    /// arguments are not looked at.
    pub fn new(args: &[String]) -> (r: Result<Config, &'static str>)
        ensures
            r is Err <==> args.len() < 3,
            r matches Err(message) ==> message@ == "not enough arguments"@,
            r matches Ok(config) ==> config.input_filename@ == args[1]@
                && config.output_filename@ == args[2]@,
    {
        if args.len() < 3 {
            return Err("not enough arguments");
        }
        let input_filename = args[1].clone();
        let output_filename = args[2].clone();
        Ok(Config { input_filename, output_filename })
    }
}

} // verus!
