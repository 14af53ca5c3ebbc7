//! File paths as text.
use crate::text::{chars_of, last_position_of};
use crate::text_laws::{free_of, law_cut_at_last};
use vstd::prelude::*;
use vstd::string::StringExecFns;

verus! {

/// `name` below `dir`, where `name` is not a path from the root.
pub open spec fn path_join(dir: Seq<char>, name: Seq<char>) -> Seq<char> {
    if dir.len() == 0 || dir.last() == '/' {
        dir + name
    } else {
        dir + "/"@ + name
    }
}

/// `name` below `dir`, where `name` is not a path from the root.
pub fn join_path(dir: &str, name: &str) -> (r: String)
    ensures
        r@ == path_join(dir@, name@),
{
    let cs = chars_of(dir);
    let mut r = dir.to_string();
    if cs.len() > 0 && cs[cs.len() - 1] != '/' {
        r.append("/");
    }
    r.append(name);
    r
}

/// What stands behind the last slash of `path`; all of it if there is none.
pub fn file_name(path: &str) -> (r: String)
    ensures
        r@ == crate::text::after_last(path@, '/'),
{
    let cs = chars_of(path);
    let at = last_position_of(cs.as_slice(), 0, cs.len(), '/');
    assert(cs@.subrange(0, cs@.len() as int) == cs@);
    let r = crate::text::text_of(cs.as_slice(), at, cs.len());
    assert(r@ == crate::text::after_last(path@, '/'));
    r
}

/// The directory that everything the program keeps is below: in the home
/// directory, or in the current one where there is none.
pub open spec fn vigil_dir(home: Option<Seq<char>>) -> Seq<char> {
    path_join(
        match home {
            Some(h) => h,
            None => "."@,
        },
        ".vigil"@,
    )
}

/// The directory that everything the program keeps is below.
pub fn vigil_path(home: Option<&str>) -> (r: String)
    ensures
        r@ == vigil_dir(crate::alerts::optional_str(home)),
{
    let h = match home {
        Some(h) => h,
        None => ".",
    };
    join_path(h, ".vigil")
}

/// A path is the directory, one slash and the name, without a second slash
/// where the directory ends with one, and the name alone where there is none.
pub proof fn law_path(dir: Seq<char>, name: Seq<char>)
    ensures
        path_join(Seq::<char>::empty(), name) == name,
        path_join(dir + seq!['/'], name) == dir + seq!['/'] + name,
        dir.len() > 0 && dir.last() != '/' ==> path_join(dir, name) == dir + seq!['/'] + name,
        vigil_dir(None) == "./.vigil"@,
        dir.len() > 0 && dir.last() != '/' ==> vigil_dir(Some(dir)) == dir + "/.vigil"@,
{
    reveal_strlit("/");
    reveal_strlit(".");
    reveal_strlit(".vigil");
    reveal_strlit("./.vigil");
    reveal_strlit("/.vigil");
    assert("/"@ =~= seq!['/']);
    assert(Seq::<char>::empty() + name =~= name);
    assert((dir + seq!['/']).last() == '/');
    assert(vigil_dir(None) =~= "./.vigil"@);
    if dir.len() > 0 && dir.last() != '/' {
        assert(vigil_dir(Some(dir)) =~= dir + "/.vigil"@);
    }
}

/// The name of a file is what stands behind the last slash of its path.
pub proof fn law_file_name(dir: Seq<char>, name: Seq<char>)
    requires
        free_of(name, '/'),
    ensures
        crate::text::after_last(path_join(dir, name), '/') == name,
{
    reveal_strlit("/");
    assert("/"@ =~= seq!['/']);
    if dir.len() == 0 {
        law_cut_at_last(dir, '/', name);
        assert(dir + name =~= name);
    } else if dir.last() == '/' {
        law_cut_at_last(dir.drop_last(), '/', name);
        assert(dir + name =~= dir.drop_last() + seq!['/'] + name);
    } else {
        law_cut_at_last(dir, '/', name);
    }
}

} // verus!
