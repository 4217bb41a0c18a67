//! Helpers around the external documentation generator's output layout:
//! where its files land under a project path, and how a crate's name is
//! recovered from an output file name. Running the generator and reading
//! its files is the surrounding program's business.

use vstd::prelude::*;

verus! {

/// The directory, under a project path, that the documentation generator
/// writes its output into.
pub fn target_folder(path: &str) -> (r: String)
    ensures
        r@ == path@ + "/target/doc"@,
{
    let mut r: String = path.to_owned();
    r.append("/target/doc");
    r
}

/// Whether the character sequence ends in ".json".
pub open spec fn ends_with_json(s: Seq<char>) -> bool {
    s.len() >= 5 && s.subrange(s.len() - 5, s.len() as int) == ".json"@
}

/// The file name with a trailing ".json" removed — a crate's name as the
/// documentation generator writes it — or nothing when the name does not
/// end that way.
pub fn strip_json_suffix(name: &str) -> (r: Option<String>)
    ensures
        match r {
            Option::Some(p) => ends_with_json(name@) && p@ == name@.subrange(
                0,
                name@.len() - 5,
            ),
            Option::None => !ends_with_json(name@),
        },
{
    let n: usize = name.unicode_len();
    proof {
        reveal_strlit(".json");
    }
    if n < 5 {
        return None;
    }
    let ok: bool = name.get_char(n - 5) == '.' && name.get_char(n - 4) == 'j' && name.get_char(
        n - 3,
    ) == 's' && name.get_char(n - 2) == 'o' && name.get_char(n - 1) == 'n';
    if ok {
        proof {
            assert(name@.subrange(n as int - 5, n as int) =~= ".json"@);
        }
        Some(name.substring_char(0, n - 5).to_owned())
    } else {
        proof {
            if ends_with_json(name@) {
                assert(name@.subrange(n as int - 5, n as int)[0] == '.');
                assert(name@.subrange(n as int - 5, n as int)[1] == 'j');
                assert(name@.subrange(n as int - 5, n as int)[2] == 's');
                assert(name@.subrange(n as int - 5, n as int)[3] == 'o');
                assert(name@.subrange(n as int - 5, n as int)[4] == 'n');
            }
        }
        None
    }
}

} // verus!
