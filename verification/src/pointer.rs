//! The CURRENT pointer: the text of the file that names the published generation's
//! manifest.
use vstd::prelude::*;

use crate::error::Error;
use crate::text::literal;

verus! {

/// `str::trim` of a text: without its leading and trailing Unicode white space.
pub uninterp spec fn trimmed(s: Seq<char>) -> Seq<char>;

/// Whether `std::path::Path::file_name` finds a final file name in a path text.
pub uninterp spec fn names_a_file(s: Seq<char>) -> bool;

/// Trims a text through `str::trim`, which drops leading and trailing white space (the
/// Unicode `White_Space` property) and nothing else; what remains depends on the text alone.
#[verifier::external_body]
fn trim_text(s: &str) -> (r: String)
    ensures
        r@ == trimmed(s@),
{
    s.trim().to_owned()
}

/// Whether `Path::file_name` of a path text is `Some`: whether the path's last component
/// is a normal file name (not `..`, not a root or prefix), which depends on the text alone.
#[verifier::external_body]
fn has_file_name(s: &str) -> (b: bool)
    ensures
        b == names_a_file(s@),
{
    std::path::Path::new(s).file_name().is_some()
}

/// The manifest file name a CURRENT pointer's text names: the text trimmed, which must be
/// non-empty and end in a file name; otherwise the store is invalid.
pub fn manifest_name(current: &str) -> (r: Result<String, Error>)
    ensures
        ({
            let name = trimmed(current@);
            match r {
                Ok(n) => n@ == name && name.len() > 0 && names_a_file(name),
                Err(e) => !(name.len() > 0 && names_a_file(name)) && (e matches Error::InvalidStore(m)
                    && m@ == "invalid CURRENT pointer"@),
            }
        }),
{
    let name = trim_text(current);
    if name.as_str().unicode_len() == 0 || !has_file_name(name.as_str()) {
        return Err(Error::InvalidStore(literal("invalid CURRENT pointer")));
    }
    Ok(name)
}

} // verus!
