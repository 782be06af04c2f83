//! The rules for invoking the transcoder on one staged file.
use vstd::prelude::*;
use crate::text::str_eq;

verus! {

/// The video filter for a resolution keyword: scaling to the keyword's
/// height with the width kept even, or the input's own size for a keyword
/// that is not in the table.
pub open spec fn filter_for(resolution: Seq<char>) -> Seq<char> {
    if resolution == "1080p"@ {
        "scale=-2:1080"@
    } else if resolution == "720p"@ {
        "scale=-2:720"@
    } else if resolution == "480p"@ {
        "scale=-2:480"@
    } else if resolution == "360p"@ {
        "scale=-2:360"@
    } else if resolution == "240p"@ {
        "scale=-2:240"@
    } else if resolution == "144p"@ {
        "scale=-2:144"@
    } else {
        PASS_THROUGH@
    }
}

/// The filter that keeps the input's size.
pub const PASS_THROUGH: &'static str = "scale=iw:ih";

/// The keyword is one of the table's.
pub open spec fn is_known_resolution(resolution: Seq<char>) -> bool {
    ||| resolution == "1080p"@
    ||| resolution == "720p"@
    ||| resolution == "480p"@
    ||| resolution == "360p"@
    ||| resolution == "240p"@
    ||| resolution == "144p"@
}

/// Maps a resolution keyword to the transcoder's video filter. The flag
/// tells whether the keyword was recognised; an unrecognised one gets the
/// pass-through filter, which the caller reports as a warning.
pub fn scale_filter(resolution: &str) -> (r: (&'static str, bool))
    ensures
        r.0@ == filter_for(resolution@),
        r.1 == is_known_resolution(resolution@),
{
    if str_eq(resolution, "1080p") {
        ("scale=-2:1080", true)
    } else if str_eq(resolution, "720p") {
        ("scale=-2:720", true)
    } else if str_eq(resolution, "480p") {
        ("scale=-2:480", true)
    } else if str_eq(resolution, "360p") {
        ("scale=-2:360", true)
    } else if str_eq(resolution, "240p") {
        ("scale=-2:240", true)
    } else if str_eq(resolution, "144p") {
        ("scale=-2:144", true)
    } else {
        (PASS_THROUGH, false)
    }
}

/// The index of the last `.` in `name`, or -1 when there is none.
pub open spec fn last_dot(name: Seq<char>) -> int
    decreases name.len(),
{
    if name.len() == 0 {
        -1
    } else if name.last() == '.' {
        name.len() - 1
    } else {
        last_dot(name.drop_last())
    }
}

/// The file name without its extension: everything before the last `.`,
/// or the whole name when it has no `.` but perhaps a leading one.
pub open spec fn stem_of(name: Seq<char>) -> Seq<char> {
    let k = last_dot(name);
    if k <= 0 {
        name
    } else {
        name.subrange(0, k)
    }
}

/// The name an output file gets: the input's own name, or, when an
/// extension is forced, its stem followed by `.` and the extension.
pub open spec fn output_name_of(name: Seq<char>, extension: Seq<char>) -> Seq<char> {
    if extension.len() == 0 {
        name
    } else {
        stem_of(name) + "."@ + extension
    }
}

proof fn lemma_last_dot(name: Seq<char>, k: int)
    requires
        -1 <= k < name.len(),
        k == -1 || name[k] == '.',
        forall|j: int| k < j < name.len() ==> name[j] != '.',
    ensures
        last_dot(name) == k,
    decreases name.len(),
{
    if name.len() > 0 && name.last() != '.' {
        lemma_last_dot(name.drop_last(), k);
    }
}

/// Derives the output file's name from the staged file's name `name`
/// and the forced extension, empty when none is forced.
pub fn output_name(name: &str, extension: &str) -> (r: String)
    ensures
        r@ == output_name_of(name@, extension@),
{
    if extension.unicode_len() == 0 {
        return name.to_owned();
    }
    let n = name.unicode_len();
    let mut k: usize = n;
    while k > 0 && name.get_char(k - 1) != '.'
        invariant
            n == name@.len(),
            k <= n,
            forall|j: int| k <= j < n ==> name@[j] != '.',
        decreases k,
    {
        k = k - 1;
    }
    proof {
        lemma_last_dot(name@, k - 1);
    }
    let mut r = if k <= 1 {
        name.to_owned()
    } else {
        name.substring_char(0, k - 1).to_owned()
    };
    r.append(".");
    r.append(extension);
    r
}

} // verus!
