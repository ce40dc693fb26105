use vstd::prelude::*;

use vstd::string::StringExecFns;

verus! {

/// The three paths a scan reads: the archive, its record index and its block index.
#[derive(Debug)]
pub struct ThreeFileArgs {
    pub input_path: String,
    pub fai_path: String,
    pub gzi_path: String,
}

/// The message that names a missing path.
fn missing_path_message(path: &str) -> (r: String)
    ensures
        r@ == "The specified path '"@ + path@ + "' does not exist"@,
{
    let mut m = <String as StringExecFns>::from_str("The specified path '");
    m.append(path);
    m.append("' does not exist");
    m
}

/// Accepts a path argument that exists (`present`), and otherwise gives the
/// message that names it.
pub fn path_exists(path: &str, present: bool) -> (r: Result<String, String>)
    ensures
        match r {
            Ok(p) => present && p@ == path@,
            Err(msg) => !present && msg@ == "The specified path '"@ + path@ + "' does not exist"@,
        },
{
    if present {
        Ok(path.to_owned())
    } else {
        Err(missing_path_message(path))
    }
}

} // verus!
