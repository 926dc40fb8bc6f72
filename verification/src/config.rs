//! Configuration: where the input file lives and where output goes,
//! together with the decision rules for validating those locations.
//! Probing the filesystem is the caller's business; the rules here take
//! the probe results and say what must happen.

use crate::error::Error;
use vstd::prelude::*;

verus! {

/// Resolved locations for one run: the input file to read and the
/// directory the executable runs from.
#[derive(Debug)]
pub struct Config {
    pub file_loc: String,
    pub cur_dir: String,
}

impl Config {
    /// A configuration naming the given locations.
    pub fn new(cur_dir: String, file_loc: String) -> (r: Config)
        ensures
            r.cur_dir == cur_dir,
            r.file_loc == file_loc,
    {
        Config { cur_dir, file_loc }
    }

    /// Decide about the input directory, given whether the path is a
    /// directory: usable as it stands, or to be created before the run
    /// fails telling the operator to populate it.
    pub fn check_input_dir(input_dir: &str, is_dir: bool) -> (r: Result<String, Error>)
        ensures
            match r {
                Ok(p) => is_dir && p@ == input_dir@,
                Err(e) => !is_dir && (e matches Error::InputDir(p) && p@ == input_dir@),
            },
    {
        if is_dir {
            Ok(String::from_str(input_dir))
        } else {
            Err(Error::InputDir(String::from_str(input_dir)))
        }
    }

    /// Decide about the input file, given whether the path is a regular
    /// file: usable, or the run fails.
    pub fn check_input_file(input_file: &str, is_file: bool) -> (r: Result<String, Error>)
        ensures
            match r {
                Ok(p) => is_file && p@ == input_file@,
                Err(e) => !is_file && (e matches Error::InputFile(p) && p@ == input_file@),
            },
    {
        if is_file {
            Ok(String::from_str(input_file))
        } else {
            Err(Error::InputFile(String::from_str(input_file)))
        }
    }
}

/// The name of the directory, under the executable's own, that holds
/// the input file.
pub fn input_dir_name() -> (r: &'static str)
    ensures
        r@ == ("data")@,
{
    "data"
}

/// A directory path and a child name joined with a '/' separator.
pub open spec fn join_spec(dir: Seq<char>, child: Seq<char>) -> Seq<char> {
    dir + seq!['/'] + child
}

/// Join a directory path and a child name with a '/' separator.
pub fn join_path(dir: &str, child: &str) -> (r: String)
    ensures
        r@ == join_spec(dir@, child@),
{
    let r = String::from_str(dir).concat("/").concat(child);
    proof {
        reveal_strlit("/");
        assert(("/")@ =~= seq!['/']);
    }
    r
}

impl Config {
    /// Decide a whole run's configuration from the executable's
    /// directory and the filesystem probes: the data directory under it
    /// must be a directory and the input file inside that a regular
    /// file, else the matching error names the offending path. Creating
    /// a missing data directory, after the error says so, is the
    /// caller's deed; nothing here touches the output directory.
    pub fn resolve(cur_dir: &str, input_dir_is_dir: bool, input_file_is_file: bool) -> (r: Result<
        Config,
        Error,
    >)
        ensures
            match r {
                Ok(c) => input_dir_is_dir && input_file_is_file && c.cur_dir@ == cur_dir@
                    && c.file_loc@ == join_spec(
                    join_spec(cur_dir@, ("data")@),
                    ("input.json")@,
                ),
                Err(e) => match e {
                    Error::InputDir(p) => !input_dir_is_dir && p@ == join_spec(
                        cur_dir@,
                        ("data")@,
                    ),
                    Error::InputFile(p) => input_dir_is_dir && !input_file_is_file && p@
                        == join_spec(join_spec(cur_dir@, ("data")@), ("input.json")@),
                    _ => false,
                },
            },
    {
        let data_dir = join_path(cur_dir, input_dir_name());
        match Self::check_input_dir(data_dir.as_str(), input_dir_is_dir) {
            Ok(_) => (),
            Err(e) => {
                return Err(e);
            },
        }
        let input_file = join_path(data_dir.as_str(), "input.json");
        let file_loc = match Self::check_input_file(input_file.as_str(), input_file_is_file) {
            Ok(loc) => loc,
            Err(e) => {
                return Err(e);
            },
        };
        Ok(Config::new(String::from_str(cur_dir), file_loc))
    }
}

} // verus!
