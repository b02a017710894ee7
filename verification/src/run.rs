//! What a run of the checker does with its flags and file arguments.
use vstd::prelude::*;

use crate::text::{chars_of, window_starts_with, window_string};

verus! {

/// The checks that a run makes.
#[derive(Debug)]
pub struct Checks {
    pub fm: bool,
    pub html: bool,
    pub links: bool,
}

/// The checks for the flags `--fm`, `--html` and `--links`, in that order:
/// each flag selects its own check; where none is given, all three run.
pub open spec fn checks_for(fm: bool, html: bool, links: bool) -> (bool, bool, bool) {
    (fm || !html && !links, html || !fm && !links, links || !fm && !html)
}

/// Chooses the checks for the flags `--fm`, `--html` and `--links`.
pub fn selected_checks(fm: bool, html: bool, links: bool) -> (r: Checks)
    ensures
        (r.fm, r.html, r.links) == checks_for(fm, html, links),
{
    Checks { fm: fm || !html && !links, html: html || !fm && !links, links: links || !fm && !html }
}

/// A run always makes at least one check, and a flag never turns its own
/// check off.
pub proof fn law_some_check_runs(fm: bool, html: bool, links: bool)
    ensures
        checks_for(fm, html, links).0 || checks_for(fm, html, links).1 || checks_for(
            fm,
            html,
            links,
        ).2,
        fm ==> checks_for(fm, html, links).0,
        html ==> checks_for(fm, html, links).1,
        links ==> checks_for(fm, html, links).2,
{
}

/// `s` without the copies of `p` it starts with (`str::trim_start_matches`
/// with a string pattern).
pub open spec fn trim_start_prefix(s: Seq<char>, p: Seq<char>) -> Seq<char>
    decreases s.len(),
{
    if p.len() > 0 && p.is_prefix_of(s) {
        trim_start_prefix(s.skip(p.len() as int), p)
    } else {
        s
    }
}

/// The path of a chapter under the book root: `src/` and the file as given
/// on the command line, less any `src/` it starts with.
pub open spec fn chapter_path_of(file: Seq<char>) -> Seq<char> {
    "src/"@ + trim_start_prefix(file, "src/"@)
}

/// The path of the chapter `file` names, with or without the `src/` prefix.
pub fn chapter_path(file: &str) -> (r: String)
    ensures
        r@ == chapter_path_of(file@),
{
    let s = chars_of(file);
    let prefix = chars_of("src/");
    proof {
        reveal_strlit("src/");
    }
    let n = s.len();
    let mut pos: usize = 0;
    proof {
        assert(s@.subrange(0, n as int) =~= s@);
    }
    while window_starts_with(&s, pos, n, &prefix)
        invariant
            n == s.len(),
            s@ == file@,
            prefix@ == "src/"@,
            prefix@.len() == 4,
            pos <= n,
            trim_start_prefix(s@.subrange(pos as int, n as int), prefix@) == trim_start_prefix(
                file@,
                "src/"@,
            ),
        decreases n - pos,
    {
        proof {
            let w = s@.subrange(pos as int, n as int);
            assert(w.skip(4) =~= s@.subrange(pos + 4, n as int));
        }
        pos = pos + 4;
    }
    let mut r = "src/".to_owned();
    let rest = window_string(file, pos, n);
    r.append(rest.as_str());
    r
}

/// A chapter may be named with or without its `src/` prefix: both name the
/// same path.
pub proof fn law_src_prefix_is_optional(file: Seq<char>)
    ensures
        chapter_path_of("src/"@ + file) == chapter_path_of(file),
{
    reveal_strlit("src/");
    let full = "src/"@ + file;
    assert("src/"@.is_prefix_of(full)) by {
        assert(full.subrange(0, 4) =~= "src/"@);
    }
    assert(full.skip(4) =~= file);
}

} // verus!
