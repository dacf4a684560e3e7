use vstd::prelude::*;
use vstd::string::StringExecFns;

verus! {

/// The command line: a configuration file, a model and an output file.
pub struct Args {
    pub config_filename: String,
    pub input_filename: String,
    pub output_filename: String,
}

/// The usage line printed for a program of this name.
pub open spec fn usage_text(program: Seq<char>) -> Seq<char> {
    "Usage: "@ + program + " <config_file> <input_file> <output_file>"@
}

fn usage_message(program: &str) -> (r: String)
    ensures
        r@ == usage_text(program@),
{
    let mut s = String::from_str("Usage: ");
    s.append(program);
    s.append(" <config_file> <input_file> <output_file>");
    s
}

/// `part` stands in `whole` as one run of characters.
pub open spec fn is_part_of(part: Seq<char>, whole: Seq<char>) -> bool {
    exists|i: int| 0 <= i <= whole.len() - part.len() && #[trigger] whole.subrange(i, i + part.len()) == part
}

/// Relies on std's `Path::file_name`: the final component of the path, a
/// slice of it, when that component is a file name. Which characters part
/// components depends on the platform, so only that much is stated.
#[verifier::external_body]
fn file_name(path: &str) -> (r: Option<String>)
    ensures
        r matches Some(s) ==> is_part_of(s@, path@),
{
    std::path::Path::new(path).file_name().and_then(|n| n.to_str()).map(|n| n.to_string())
}

pub open spec fn program_of(cmdline: Seq<String>) -> Seq<char> {
    if cmdline.len() > 0 {
        cmdline[0]@
    } else {
        Seq::empty()
    }
}

impl Args {
    /// Reads the three file names after the program's name; with fewer,
    /// the usage line.
    pub fn new(cmdline: &Vec<String>) -> (r: Result<Args, String>)
        ensures
            cmdline@.len() < 4 ==> (r matches Err(m) && m@ == usage_text(program_of(cmdline@))),
            cmdline@.len() >= 4 ==> (r matches Ok(a) && a.config_filename@ == cmdline@[1]@
                && a.input_filename@ == cmdline@[2]@ && a.output_filename@ == cmdline@[3]@),
    {
        if cmdline.len() < 4 {
            let program = if cmdline.len() > 0 {
                cmdline[0].as_str()
            } else {
                ""
            };
            proof {
                if cmdline@.len() == 0 {
                    reveal_strlit("");
                    assert(program@ =~= Seq::<char>::empty());
                }
            }
            Err(usage_message(program))
        } else {
            Ok(
                Args {
                    config_filename: cmdline[1].clone(),
                    input_filename: cmdline[2].clone(),
                    output_filename: cmdline[3].clone(),
                },
            )
        }
    }

    /// The model's file name, for the title of the output: the last
    /// component of the input path, as the platform splits paths.
    pub fn name(&self) -> (r: Option<String>)
        ensures
            r matches Some(s) ==> is_part_of(s@, self.input_filename@),
    {
        file_name(self.input_filename.as_str())
    }
}

} // verus!
