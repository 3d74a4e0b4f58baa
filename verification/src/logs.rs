//! Where each package's compiler log lives, and the text that goes into it.
use vstd::prelude::*;
use crate::filter::{regex_compiles, regex_replaced};

verus! {

/// The build folder that holds a log.
#[derive(Debug, Clone, Copy, PartialEq, Eq, Structural)]
pub enum Location {
    Bs,
    Ocaml,
}

pub open spec fn location_folder(subfolder: Location) -> Seq<char> {
    match subfolder {
        Location::Bs => "bs"@,
        Location::Ocaml => "ocaml"@,
    }
}

pub open spec fn log_file_path(subfolder: Location, name: Seq<char>) -> Seq<char> {
    name + "/lib/"@ + location_folder(subfolder) + "/.compiler.log"@
}

/// The compiler log of the package at `name`, in the given build folder.
pub fn get_log_file_path(subfolder: Location, name: &str) -> (r: String)
    ensures
        r@ == log_file_path(subfolder, name@),
{
    let mut r = name.to_owned();
    r.append("/lib/");
    match subfolder {
        Location::Bs => r.append("bs"),
        Location::Ocaml => r.append("ocaml"),
    }
    r.append("/.compiler.log");
    r
}

/// The terminal control sequences (colours and the like) that the compiler
/// writes; they are left out of the logs.
pub open spec fn colour_pattern() -> Seq<char> {
    "[\\u001b\\u009b]\\[[()#;?]*(?:[0-9]{1,4}(?:;[0-9]{0,4})*)?[0-9A-ORZcf-nqry=><]"@
}

/// `text` with its terminal control sequences removed. `None` only if the
/// `regex` crate refused the expression for them.
pub fn escape_colours(text: &str) -> (r: Option<String>)
    ensures
        r is Some <==> regex_compiles(colour_pattern()),
        r matches Some(s) ==> s@ == regex_replaced(colour_pattern(), text@, ""@),
{
    match crate::filter::Filter::new("[\\u001b\\u009b]\\[[()#;?]*(?:[0-9]{1,4}(?:;[0-9]{0,4})*)?[0-9A-ORZcf-nqry=><]") {
        Some(re) => Some(re.replace_all(text, "")),
        None => None,
    }
}

} // verus!
