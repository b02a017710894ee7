//! Checks on the HTML blocks, includes and links of a chapter.
use vstd::prelude::*;

use std::path::{Path, PathBuf};

use crate::diagnostic::Diagnostic;
use crate::text::{
    chars_of, find_char, find_in_window, find_last_char, find_pattern, index_of, last_index_of,
    lemma_find_pattern_bounds, lemma_index_of_bounds, lemma_last_index_of_bounds, lemma_line_window,
    lemma_lines_concat, lemma_trim_adds_nothing, line_windows, lines, trim, trim_window,
    window_ends_with, window_equals, window_equals_at, window_starts_with, window_string, windows,
    windows_inside,
};

verus! {

/// How many times `p` occurs in `s` from position `i` on, counted left to
/// right without overlap, as `str::matches` counts them. (`p` is never
/// empty here: an empty pattern counts nothing.)
pub open spec fn count_from(s: Seq<char>, p: Seq<char>, i: int) -> nat
    decreases s.len() - i,
{
    if p.len() == 0 || i < 0 || i + p.len() > s.len() {
        0
    } else if s.subrange(i, i + p.len()) == p {
        1 + count_from(s, p, i + p.len())
    } else {
        count_from(s, p, i + 1)
    }
}

/// How many times `p` occurs in `s`, counted left to right without overlap.
pub open spec fn count_matches(s: Seq<char>, p: Seq<char>) -> nat {
    count_from(s, p, 0)
}

/// The opening tag `<tag>`.
pub open spec fn opening(tag: Seq<char>) -> Seq<char> {
    "<"@ + tag + ">"@
}

/// The closing tag `</tag>`.
pub open spec fn closing(tag: Seq<char>) -> Seq<char> {
    "</"@ + tag + ">"@
}

/// The finding for `tag`: none where `content` opens it as often as it
/// closes it, else `code` with the message `unclosed <tag> block`.
pub open spec fn tag_balance(content: Seq<char>, tag: Seq<char>, code: Seq<char>) -> Option<
    (Seq<char>, Seq<char>),
> {
    if count_matches(content, opening(tag)) == count_matches(content, closing(tag)) {
        None
    } else {
        Some((code, "unclosed <"@ + tag + "> block"@))
    }
}

/// The finding, where there is one, as a sequence of none or one.
pub open spec fn optional<T>(o: Option<T>) -> Seq<T> {
    match o {
        Some(x) => seq![x],
        None => seq![],
    }
}

/// The findings of `check_html`: `<details>`, then `<summary>`.
pub open spec fn html_findings(content: Seq<char>) -> Seq<(Seq<char>, Seq<char>)> {
    optional(tag_balance(content, "details"@, "html::unclosed-details"@)) + optional(
        tag_balance(content, "summary"@, "html::unclosed-summary"@),
    )
}

/// How many times `p` occurs in `s`, counted left to right without overlap.
fn count_occurrences(s: &Vec<char>, p: &Vec<char>) -> (n: usize)
    requires
        p.len() > 0,
    ensures
        n == count_matches(s@, p@),
{
    let mut i: usize = 0;
    let mut n: usize = 0;
    while i <= s.len() && p.len() <= s.len() - i
        invariant
            p.len() > 0,
            i <= s.len(),
            n <= i,
            n + count_from(s@, p@, i as int) == count_from(s@, p@, 0),
        decreases s.len() - i,
    {
        if window_equals_at(s, i, p) {
            n = n + 1;
            i = i + p.len();
        } else {
            i = i + 1;
        }
    }
    n
}

/// `open`, then the characters of `tag`, then `>`.
fn tag_pattern(open: &str, tag: &Vec<char>) -> (r: Vec<char>)
    ensures
        r@ == open@ + tag@ + ">"@,
        r@.len() > 0,
{
    let mut r = chars_of(open);
    let ghost start = r@;
    for i in 0..tag.len()
        invariant
            r@ == start + tag@.take(i as int),
    {
        r.push(tag[i]);
        proof {
            assert(tag@.take(i + 1) =~= tag@.take(i as int).push(tag@[i as int]));
        }
    }
    let close = chars_of(">");
    let ghost before = r@;
    for i in 0..close.len()
        invariant
            r@ == before + close@.take(i as int),
    {
        r.push(close[i]);
        proof {
            assert(close@.take(i + 1) =~= close@.take(i as int).push(close@[i as int]));
        }
    }
    proof {
        reveal_strlit(">");
        assert(tag@.take(tag@.len() as int) =~= tag@);
        assert(close@.take(close@.len() as int) =~= close@);
    }
    r
}

/// Reports `code` where `content` opens `tag` more or less often than it
/// closes it.
fn check_tag_balance(content: &str, tag: &str, code: &'static str) -> (r: Option<Diagnostic>)
    ensures
        match r {
            None => tag_balance(content@, tag@, code@) is None,
            Some(d) => tag_balance(content@, tag@, code@) == Some(d.deep_view()),
        },
{
    let s = chars_of(content);
    let t = chars_of(tag);
    let open = tag_pattern("<", &t);
    let close = tag_pattern("</", &t);
    let opens = count_occurrences(&s, &open);
    let closes = count_occurrences(&s, &close);
    if opens == closes {
        None
    } else {
        let mut message = "unclosed <".to_owned();
        message.append(tag);
        message.append("> block");
        Some(Diagnostic { code, message })
    }
}

/// Reports each of `<details>` and `<summary>` that `content` does not
/// close as often as it opens it.
pub fn check_html(content: &str) -> (r: Vec<Diagnostic>)
    ensures
        r.deep_view() == html_findings(content@),
{
    let mut diags: Vec<Diagnostic> = Vec::new();
    if let Some(d) = check_tag_balance(content, "details", "html::unclosed-details") {
        diags.push(d);
    }
    let ghost first = diags.deep_view();
    if let Some(d) = check_tag_balance(content, "summary", "html::unclosed-summary") {
        diags.push(d);
    }
    proof {
        assert(first =~= optional(tag_balance(content@, "details"@, "html::unclosed-details"@)));
        assert(diags.deep_view() =~= html_findings(content@));
    }
    diags
}

#[verifier::external_type_specification]
#[verifier::external_body]
pub struct ExPath(Path);

#[verifier::external_type_specification]
#[verifier::external_body]
pub struct ExPathBuf(PathBuf);

/// Calls `Path::join`: `rel` under `dir` (or `rel` itself where it is
/// absolute). Verus sees nothing inside a path, so nothing is stated of the
/// joined one.
#[verifier::external_body]
fn join_path(dir: &Path, rel: &str) -> PathBuf {
    dir.join(rel)
}

/// Calls `Path::exists`: whether the file system holds an entry at `path`
/// at the time of the call. The answer rests on the disk, so nothing is
/// stated of it.
#[verifier::external_body]
fn path_exists(path: &PathBuf) -> bool {
    path.exists()
}

/// What a line names between `{{#include ` and a final `}}`, where it is
/// such a line.
pub open spec fn include_inner(l: Seq<char>) -> Option<Seq<char>> {
    let head = "{{#include "@;
    let tail = "}}"@;
    if head.is_prefix_of(l) && tail.is_suffix_of(l.skip(head.len() as int)) {
        Some(l.subrange(head.len() as int, l.len() - tail.len()))
    } else {
        None
    }
}

/// The file that an include names: the text before its first `:` (which
/// starts a line range), trimmed.
pub open spec fn include_path(inner: Seq<char>) -> Seq<char> {
    trim(inner.take(index_of(inner, ':')))
}

/// The includes of the lines, in order: what each names, and its file.
pub open spec fn includes_in(lines: Seq<Seq<char>>) -> Seq<(Seq<char>, Seq<char>)>
    decreases lines.len(),
{
    if lines.len() == 0 {
        seq![]
    } else {
        (match include_inner(lines[0]) {
            Some(inner) => seq![(inner, include_path(inner))],
            None => seq![],
        }) + includes_in(lines.drop_first())
    }
}

/// An `{{#include ...}}` line: what it names, and the file of that.
#[derive(Debug)]
pub struct IncludeRef {
    pub inner: String,
    pub path: String,
}

impl DeepView for IncludeRef {
    type V = (Seq<char>, Seq<char>);

    open spec fn deep_view(&self) -> (Seq<char>, Seq<char>) {
        (self.inner@, self.path@)
    }
}

/// The includes of `content`, in order.
pub fn include_refs(content: &str) -> (r: Vec<IncludeRef>)
    ensures
        r.deep_view() == includes_in(lines(content@)),
{
    let s = chars_of(content);
    let wins = line_windows(&s);
    let head = chars_of("{{#include ");
    let tail = chars_of("}}");
    let ghost ls = lines(s@);
    let mut out: Vec<IncludeRef> = Vec::new();
    proof {
        assert(ls.skip(0) =~= ls);
        assert(out.deep_view() + includes_in(ls) =~= includes_in(ls));
    }
    let mut i: usize = 0;
    while i < wins.len()
        invariant
            s@ == content@,
            head@ == "{{#include "@,
            tail@ == "}}"@,
            windows_inside(s@, wins@),
            windows(s@, wins@) == ls,
            ls == lines(content@),
            i <= wins.len(),
            out.deep_view() + includes_in(ls.skip(i as int)) == includes_in(ls),
        decreases wins.len() - i,
    {
        let (lo, hi) = wins[i];
        let ghost l = s@.subrange(lo as int, hi as int);
        let ghost before = out.deep_view();
        proof {
            lemma_line_window(s@, wins@, i as int);
        }
        if window_starts_with(&s, lo, hi, &head) && window_ends_with(&s, lo + head.len(), hi, &tail) {
            let a = lo + head.len();
            let b = hi - tail.len();
            let k = find_char(&s, a, b, ':');
            let (pa, pb) = trim_window(&s, a, k);
            proof {
                assert(l.skip(head@.len() as int) =~= s@.subrange(a as int, hi as int));
                assert(l.subrange(head@.len() as int, l.len() - tail@.len()) =~= s@.subrange(
                    a as int,
                    b as int,
                ));
                assert(s@.subrange(a as int, b as int).take(k - a) =~= s@.subrange(
                    a as int,
                    k as int,
                ));
            }
            let r = IncludeRef { inner: window_string(content, a, b), path: window_string(content, pa, pb) };
            out.push(r);
            proof {
                assert(out.deep_view() =~= before + seq![(s@.subrange(a as int, b as int), s@.subrange(pa as int, pb as int))]);
            }
        } else {
            proof {
                assert(include_inner(l) is None);
            }
        }
        proof {
            assert(out.deep_view() + includes_in(ls.skip(i + 1)) =~= before + includes_in(ls.skip(i as int)));
        }
        i = i + 1;
    }
    proof {
        assert(ls.skip(i as int) =~= Seq::<Seq<char>>::empty());
        assert(out.deep_view() + includes_in(ls.skip(i as int)) =~= out.deep_view());
    }
    out
}

/// The findings for the includes: one for each whose file was not found,
/// in order, with the message `include path does not exist: ` and what the
/// include names.
pub open spec fn include_findings(refs: Seq<(Seq<char>, Seq<char>)>, found: Seq<bool>) -> Seq<
    (Seq<char>, Seq<char>),
>
    decreases refs.len(),
{
    if refs.len() == 0 {
        seq![]
    } else {
        (if found[0] {
            seq![]
        } else {
            seq![("html::broken-include"@, "include path does not exist: "@ + refs[0].0)]
        }) + include_findings(refs.drop_first(), found.drop_first())
    }
}

/// Reports each include whose file `found` says is missing.
pub fn include_report(refs: &Vec<IncludeRef>, found: &Vec<bool>) -> (r: Vec<Diagnostic>)
    requires
        found.len() == refs.len(),
    ensures
        r.deep_view() == include_findings(refs.deep_view(), found@),
{
    let ghost all = refs.deep_view();
    let mut out: Vec<Diagnostic> = Vec::new();
    proof {
        assert(all.skip(0) =~= all);
        assert(found@.skip(0) =~= found@);
        assert(out.deep_view() + include_findings(all, found@) =~= include_findings(all, found@));
    }
    let mut i: usize = 0;
    while i < refs.len()
        invariant
            found.len() == refs.len(),
            all == refs.deep_view(),
            i <= refs.len(),
            out.deep_view() + include_findings(all.skip(i as int), found@.skip(i as int))
                == include_findings(all, found@),
        decreases refs.len() - i,
    {
        let ghost before = out.deep_view();
        proof {
            assert(all.skip(i as int).drop_first() =~= all.skip(i + 1));
            assert(found@.skip(i as int).drop_first() =~= found@.skip(i + 1));
            assert(all.skip(i as int)[0] == refs[i as int].deep_view());
            assert(found@.skip(i as int)[0] == found@[i as int]);
        }
        if !found[i] {
            let mut message = "include path does not exist: ".to_owned();
            message.append(refs[i].inner.as_str());
            out.push(Diagnostic { code: "html::broken-include", message });
            proof {
                assert(out.deep_view() =~= before + seq![("html::broken-include"@, "include path does not exist: "@ + all[i as int].0)]);
            }
        } else {
            proof {
                assert(out.deep_view() =~= before);
            }
        }
        proof {
            assert(out.deep_view() + include_findings(all.skip(i + 1), found@.skip(i + 1))
                =~= before + include_findings(all.skip(i as int), found@.skip(i as int)));
        }
        i = i + 1;
    }
    proof {
        assert(all.skip(i as int) =~= Seq::<(Seq<char>, Seq<char>)>::empty());
        assert(out.deep_view() + include_findings(all.skip(i as int), found@.skip(i as int))
            =~= out.deep_view());
    }
    out
}

/// Whether the file `rel` under `dir` exists, as the file system says at
/// the time of the call. Nothing is stated of the answer, which rests on the
/// disk; `answered` ties a value to a call of it.
pub fn file_exists_under(dir: &Path, rel: &str) -> bool {
    let target = join_path(dir, rel);
    path_exists(&target)
}

/// Whether `found` is what a call of `file_exists_under` answered for the
/// file `rel` under `dir`.
pub open spec fn answered(dir: &Path, rel: Seq<char>, found: bool) -> bool {
    exists|p: &str| p@ == rel && #[trigger] call_ensures(file_exists_under, (dir, p), found)
}

/// Reports each `{{#include path}}` line of `content` whose file does not
/// exist under `file_dir`. Which files exist rests on the disk: the findings
/// are those of `include_report` for the answers that `file_exists_under`
/// gave for the file of each include.
pub fn check_includes(content: &str, file_dir: &Path) -> (r: Vec<Diagnostic>)
    ensures
        exists|found: Seq<bool>|
            found.len() == includes_in(lines(content@)).len() && (forall|i: int|
                0 <= i < found.len() ==> answered(
                    file_dir,
                    #[trigger] includes_in(lines(content@))[i].1,
                    found[i],
                )) && r.deep_view() == #[trigger] include_findings(
                includes_in(lines(content@)),
                found,
            ),
{
    let refs = include_refs(content);
    let ghost all = refs.deep_view();
    let mut found: Vec<bool> = Vec::new();
    for i in 0..refs.len()
        invariant
            all == refs.deep_view(),
            found.len() == i,
            forall|j: int| 0 <= j < i ==> answered(file_dir, #[trigger] all[j].1, found@[j]),
    {
        let p = refs[i].path.as_str();
        let e = file_exists_under(file_dir, p);
        proof {
            assert(p@ == all[i as int].1);
            assert(call_ensures(file_exists_under, (file_dir, p), e));
        }
        found.push(e);
    }
    let r = include_report(&refs, &found);
    proof {
        assert(r.deep_view() == include_findings(includes_in(lines(content@)), found@));
    }
    r
}

/// A link target without the angle brackets it may be written in
/// (`[text](<target>)`).
pub open spec fn unwrap_angle(t: Seq<char>) -> Seq<char> {
    if t.len() >= 2 && t[0] == '<' && t.last() == '>' {
        t.subrange(1, t.len() - 1)
    } else {
        t
    }
}

/// The targets of the markdown links `[text](target)` of a line: after
/// each `](`, the text up to the last `)` of the line (so that a target may
/// hold parentheses, as in `foo(1).md`), less any angle brackets around it.
/// A `](` with no `)` after it ends the search.
pub open spec fn line_targets(rest: Seq<char>) -> Seq<Seq<char>>
    decreases rest.len(),
{
    match find_pattern(rest, "]("@) {
        None => seq![],
        Some(st) => {
            proof {
                lemma_find_pattern_bounds(rest, "]("@);
            }
            let after = rest.skip(st + "]("@.len());
            match last_index_of(after, ')') {
                Some(e) => {
                    proof {
                        lemma_last_index_of_bounds(after, ')');
                    }
                    seq![unwrap_angle(after.take(e))] + line_targets(after.skip(e + 1))
                },
                None => seq![],
            }
        }
    }
}

/// Whether a link target may name a page of the book: it is not empty, and
/// neither starts with `http` nor is an anchor (`#...`).
pub open spec fn is_local_target(t: Seq<char>) -> bool {
    t.len() > 0 && !"http"@.is_prefix_of(t) && t[0] != '#'
}

/// The file a link target names: the text before its first `#`.
pub open spec fn link_path(t: Seq<char>) -> Seq<char> {
    t.take(index_of(t, '#'))
}

/// The local targets, in order, each with its file.
pub open spec fn local_links(targets: Seq<Seq<char>>) -> Seq<(Seq<char>, Seq<char>)>
    decreases targets.len(),
{
    if targets.len() == 0 {
        seq![]
    } else {
        (if is_local_target(targets[0]) {
            seq![(targets[0], link_path(targets[0]))]
        } else {
            seq![]
        }) + local_links(targets.drop_first())
    }
}

/// The local links of the lines, in order.
pub open spec fn links_in(lines: Seq<Seq<char>>) -> Seq<(Seq<char>, Seq<char>)>
    decreases lines.len(),
{
    if lines.len() == 0 {
        seq![]
    } else {
        local_links(line_targets(lines[0])) + links_in(lines.drop_first())
    }
}

/// A markdown link to a local file: its target, and the file of that.
#[derive(Debug)]
pub struct LinkRef {
    pub target: String,
    pub path: String,
}

impl DeepView for LinkRef {
    type V = (Seq<char>, Seq<char>);

    open spec fn deep_view(&self) -> (Seq<char>, Seq<char>) {
        (self.target@, self.path@)
    }
}

/// The local links of the line in the window `lo..hi` of `s`, added to `out`.
fn push_line_links(text: &str, s: &Vec<char>, lo: usize, hi: usize, out: &mut Vec<LinkRef>)
    requires
        s@ == text@,
        lo <= hi <= s.len(),
    ensures
        final(out).deep_view() == old(out).deep_view() + local_links(
            line_targets(s@.subrange(lo as int, hi as int)),
        ),
{
    let opener = chars_of("](");
    let http = chars_of("http");
    let ghost start = out.deep_view();
    let mut pos = lo;
    proof {
        assert(start + local_links(line_targets(s@.subrange(lo as int, hi as int))) =~= start
            + local_links(line_targets(s@.subrange(lo as int, hi as int))));
    }
    loop
        invariant_except_break
            s@ == text@,
            opener@ == "]("@,
            http@ == "http"@,
            lo <= pos <= hi <= s.len(),
            out.deep_view() + local_links(line_targets(s@.subrange(pos as int, hi as int)))
                == start + local_links(line_targets(s@.subrange(lo as int, hi as int))),
        ensures
            out.deep_view() == start + local_links(line_targets(s@.subrange(lo as int, hi as int))),
        decreases hi - pos,
    {
        let ghost rest = s@.subrange(pos as int, hi as int);
        let ghost before = out.deep_view();
        let found = find_in_window(s, pos, hi, &opener);
        match found {
            None => {
                proof {
                    assert(line_targets(rest) =~= Seq::<Seq<char>>::empty());
                    assert(local_links(line_targets(rest)) =~= Seq::<(Seq<char>, Seq<char>)>::empty());
                    assert(out.deep_view() =~= before + local_links(line_targets(rest)));
                }
                break;
            },
            Some(st) => {
                let a = st + opener.len();
                let found_close = find_last_char(s, a, hi, ')');
                proof {
                    assert(rest.skip(st - pos + opener@.len()) =~= s@.subrange(a as int, hi as int));
                }
                let e = match found_close {
                    None => {
                        proof {
                            assert(line_targets(rest) =~= Seq::<Seq<char>>::empty());
                            assert(local_links(line_targets(rest)) =~= Seq::<(Seq<char>, Seq<char>)>::empty());
                            assert(out.deep_view() =~= before + local_links(line_targets(rest)));
                        }
                        break;
                    },
                    Some(e) => e,
                };
                let (ta, tb) = if e - a >= 2 && s[a] == '<' && s[e - 1] == '>' {
                    (a + 1, e - 1)
                } else {
                    (a, e)
                };
                let ghost target = s@.subrange(ta as int, tb as int);
                proof {
                    let after = s@.subrange(a as int, hi as int);
                    let raw = after.take(e - a);
                    assert(raw =~= s@.subrange(a as int, e as int));
                    if e - a >= 2 {
                        assert(raw[0] == s@[a as int]);
                        assert(raw.last() == s@[e - 1]);
                        assert(raw.subrange(1, raw.len() - 1) =~= s@.subrange(a + 1, e - 1));
                    }
                    assert(unwrap_angle(raw) == target);
                    assert(after.skip(e - a + 1) =~= s@.subrange(e + 1, hi as int));
                    assert(line_targets(rest) == seq![target] + line_targets(s@.subrange(e + 1, hi as int)));
                    assert((seq![target] + line_targets(s@.subrange(e + 1, hi as int))).drop_first()
                        =~= line_targets(s@.subrange(e + 1, hi as int)));
                }
                let local = tb > ta && s[ta] != '#' && !window_starts_with(s, ta, tb, &http);
                proof {
                    if tb > ta {
                        assert(target[0] == s@[ta as int]);
                    }
                }
                if local {
                    let k = find_char(s, ta, tb, '#');
                    proof {
                        assert(target.take(k - ta) =~= s@.subrange(ta as int, k as int));
                    }
                    let link = LinkRef { target: window_string(text, ta, tb), path: window_string(text, ta, k) };
                    out.push(link);
                    proof {
                        assert(out.deep_view() =~= before + seq![(target, link_path(target))]);
                    }
                } else {
                    proof {
                        assert(out.deep_view() =~= before);
                    }
                }
                proof {
                    assert(out.deep_view() + local_links(line_targets(s@.subrange(e + 1, hi as int)))
                        =~= before + local_links(line_targets(rest)));
                }
                pos = e + 1;
            },
        }
    }
}

/// The local links of `content`, in order.
pub fn link_refs(content: &str) -> (r: Vec<LinkRef>)
    ensures
        r.deep_view() == links_in(lines(content@)),
{
    let s = chars_of(content);
    let wins = line_windows(&s);
    let ghost ls = lines(s@);
    let mut out: Vec<LinkRef> = Vec::new();
    proof {
        assert(ls.skip(0) =~= ls);
        assert(out.deep_view() + links_in(ls) =~= links_in(ls));
    }
    let mut i: usize = 0;
    while i < wins.len()
        invariant
            s@ == content@,
            windows_inside(s@, wins@),
            windows(s@, wins@) == ls,
            ls == lines(content@),
            i <= wins.len(),
            out.deep_view() + links_in(ls.skip(i as int)) == links_in(ls),
        decreases wins.len() - i,
    {
        let (lo, hi) = wins[i];
        let ghost before = out.deep_view();
        proof {
            lemma_line_window(s@, wins@, i as int);
        }
        push_line_links(content, &s, lo, hi, &mut out);
        proof {
            assert(out.deep_view() + links_in(ls.skip(i + 1)) =~= before + links_in(ls.skip(i as int)));
        }
        i = i + 1;
    }
    proof {
        assert(ls.skip(i as int) =~= Seq::<Seq<char>>::empty());
        assert(out.deep_view() + links_in(ls.skip(i as int)) =~= out.deep_view());
    }
    out
}

/// What `Path::extension` gives for the path `path`, as text.
pub uninterp spec fn path_extension(path: Seq<char>) -> Option<Seq<char>>;

/// Calls `Path::extension` on `path` and gives the extension as text: the
/// part of the last component after its last `.`, or none (no `.`, or a
/// name that only starts with one). Its result is named, not stated.
#[verifier::external_body]
fn extension_of(path: &str) -> (r: Option<String>)
    ensures
        r.deep_view() == path_extension(path@),
{
    match Path::new(path).extension() {
        Some(ext) => match ext.to_str() {
            Some(e) => Some(e.to_owned()),
            None => None,
        },
        None => None,
    }
}

/// Whether a link with this extension may name a page: `md`, `markdown`,
/// or no extension at all.
pub open spec fn is_page_extension(ext: Option<Seq<char>>) -> bool {
    let e = match ext {
        Some(x) => x,
        None => Seq::<char>::empty(),
    };
    e == "md"@ || e == "markdown"@ || e.len() == 0
}

/// Whether `ext` may name a page.
fn names_page(ext: &Option<String>) -> (b: bool)
    ensures
        b == is_page_extension(ext.deep_view()),
{
    match ext {
        None => true,
        Some(e) => {
            let c = chars_of(e.as_str());
            let n = c.len();
            proof {
                assert(c@.subrange(0, n as int) =~= c@);
            }
            n == 0 || window_equals(&c, 0, n, &chars_of("md")) || window_equals(
                &c,
                0,
                n,
                &chars_of("markdown"),
            )
        },
    }
}

/// The findings for the links: one for each whose extension may name a
/// page and whose file was not found, in order, with the message
/// `broken internal link: ` and the link's target.
pub open spec fn link_findings(
    links: Seq<(Seq<char>, Seq<char>)>,
    exts: Seq<Option<Seq<char>>>,
    found: Seq<bool>,
) -> Seq<(Seq<char>, Seq<char>)>
    decreases links.len(),
{
    if links.len() == 0 {
        seq![]
    } else {
        (if is_page_extension(exts[0]) && !found[0] {
            seq![("html::broken-link"@, "broken internal link: "@ + links[0].0)]
        } else {
            seq![]
        }) + link_findings(links.drop_first(), exts.drop_first(), found.drop_first())
    }
}

/// The extension of the file of each link.
pub open spec fn link_extensions(links: Seq<(Seq<char>, Seq<char>)>) -> Seq<Option<Seq<char>>> {
    links.map_values(|l: (Seq<char>, Seq<char>)| path_extension(l.1))
}

/// Reports each link whose extension `exts` says may name a page and whose
/// file `found` says is missing.
pub fn link_report(links: &Vec<LinkRef>, exts: &Vec<Option<String>>, found: &Vec<bool>) -> (r: Vec<
    Diagnostic,
>)
    requires
        exts.len() == links.len(),
        found.len() == links.len(),
    ensures
        r.deep_view() == link_findings(links.deep_view(), exts.deep_view(), found@),
{
    let ghost all = links.deep_view();
    let ghost ex = exts.deep_view();
    let mut out: Vec<Diagnostic> = Vec::new();
    proof {
        assert(all.skip(0) =~= all);
        assert(ex.skip(0) =~= ex);
        assert(found@.skip(0) =~= found@);
        assert(out.deep_view() + link_findings(all, ex, found@) =~= link_findings(all, ex, found@));
    }
    let mut i: usize = 0;
    while i < links.len()
        invariant
            exts.len() == links.len(),
            found.len() == links.len(),
            all == links.deep_view(),
            ex == exts.deep_view(),
            i <= links.len(),
            out.deep_view() + link_findings(all.skip(i as int), ex.skip(i as int), found@.skip(i as int))
                == link_findings(all, ex, found@),
        decreases links.len() - i,
    {
        let ghost before = out.deep_view();
        proof {
            assert(all.skip(i as int).drop_first() =~= all.skip(i + 1));
            assert(ex.skip(i as int).drop_first() =~= ex.skip(i + 1));
            assert(found@.skip(i as int).drop_first() =~= found@.skip(i + 1));
            assert(all.skip(i as int)[0] == links[i as int].deep_view());
            assert(ex.skip(i as int)[0] == exts[i as int].deep_view());
            assert(found@.skip(i as int)[0] == found@[i as int]);
        }
        if names_page(&exts[i]) && !found[i] {
            let mut message = "broken internal link: ".to_owned();
            message.append(links[i].target.as_str());
            out.push(Diagnostic { code: "html::broken-link", message });
            proof {
                assert(out.deep_view() =~= before + seq![("html::broken-link"@, "broken internal link: "@ + all[i as int].0)]);
            }
        } else {
            proof {
                assert(out.deep_view() =~= before);
            }
        }
        proof {
            assert(out.deep_view() + link_findings(all.skip(i + 1), ex.skip(i + 1), found@.skip(i + 1))
                =~= before + link_findings(all.skip(i as int), ex.skip(i as int), found@.skip(i as int)));
        }
        i = i + 1;
    }
    proof {
        assert(all.skip(i as int) =~= Seq::<(Seq<char>, Seq<char>)>::empty());
        assert(out.deep_view() + link_findings(all.skip(i as int), ex.skip(i as int), found@.skip(i as int))
            =~= out.deep_view());
    }
    out
}

/// Reports each markdown link of `content` to a local page (extension `md`,
/// `markdown` or none) whose file does not exist under `file_dir`. External
/// links (`http...`), anchors and other files are skipped. Which files exist
/// rests on the disk: the findings are those of `link_report` for the
/// links' extensions and what was found.
pub fn check_links(content: &str, file_dir: &Path) -> (r: Vec<Diagnostic>)
    ensures
        exists|found: Seq<bool>|
            found.len() == links_in(lines(content@)).len() && (forall|i: int|
                0 <= i < found.len() && is_page_extension(
                    link_extensions(links_in(lines(content@)))[i],
                ) ==> answered(
                    file_dir,
                    #[trigger] links_in(lines(content@))[i].1,
                    found[i],
                )) && r.deep_view() == #[trigger] link_findings(
                links_in(lines(content@)),
                link_extensions(links_in(lines(content@))),
                found,
            ),
{
    let links = link_refs(content);
    let ghost all = links.deep_view();
    let mut exts: Vec<Option<String>> = Vec::new();
    let mut found: Vec<bool> = Vec::new();
    for i in 0..links.len()
        invariant
            all == links.deep_view(),
            exts.len() == i,
            found.len() == i,
            forall|j: int| 0 <= j < i ==> (#[trigger] exts@[j]).deep_view() == path_extension(all[j].1),
            forall|j: int|
                0 <= j < i && is_page_extension(path_extension(all[j].1)) ==> answered(
                    file_dir,
                    #[trigger] all[j].1,
                    found@[j],
                ),
    {
        let p = links[i].path.as_str();
        let ext = extension_of(p);
        let exists = if names_page(&ext) {
            let e = file_exists_under(file_dir, p);
            proof {
                assert(p@ == all[i as int].1);
                assert(call_ensures(file_exists_under, (file_dir, p), e));
            }
            e
        } else {
            true
        };
        exts.push(ext);
        found.push(exists);
    }
    let r = link_report(&links, &exts, &found);
    proof {
        assert(exts.deep_view() =~= link_extensions(all));
        assert(r.deep_view() == link_findings(all, link_extensions(all), found@));
    }
    r
}

proof fn lemma_includes_have_no_range(ls: Seq<Seq<char>>)
    ensures
        forall|i: int| 0 <= i < includes_in(ls).len() ==> !(#[trigger] includes_in(ls)[i]).1.contains(':'),
    decreases ls.len(),
{
    if ls.len() > 0 {
        lemma_includes_have_no_range(ls.drop_first());
        let head: Seq<(Seq<char>, Seq<char>)> = match include_inner(ls[0]) {
            Some(inner) => seq![(inner, include_path(inner))],
            None => seq![],
        };
        if let Some(inner) = include_inner(ls[0]) {
            let before = inner.take(index_of(inner, ':'));
            lemma_index_of_bounds(inner, ':');
            assert(!before.contains(':')) by {
                if before.contains(':') {
                    let j = choose|j: int| 0 <= j < before.len() && before[j] == ':';
                    assert(inner[j] == ':');
                }
            }
            lemma_trim_adds_nothing(before, ':');
        }
        let rest = includes_in(ls.drop_first());
        assert(includes_in(ls) == head + rest);
        assert forall|i: int| 0 <= i < includes_in(ls).len() implies !(#[trigger] includes_in(ls)[i]).1.contains(':') by {
            if i >= head.len() {
                assert(includes_in(ls)[i] == rest[i - head.len()]);
            }
        }
    }
}

/// The file an include names never holds a `:`: a line range such as
/// `file.css:25:29` names `file.css`.
pub proof fn law_include_path_drops_line_range(content: Seq<char>)
    ensures
        forall|i: int|
            0 <= i < includes_in(lines(content)).len() ==> !(#[trigger] includes_in(
                lines(content),
            )[i]).1.contains(':'),
{
    lemma_includes_have_no_range(lines(content));
}

/// Where every include's file was found, no include is reported.
pub proof fn law_found_includes_are_not_reported(refs: Seq<(Seq<char>, Seq<char>)>, found: Seq<bool>)
    requires
        found.len() == refs.len(),
        forall|i: int| 0 <= i < found.len() ==> #[trigger] found[i],
    ensures
        include_findings(refs, found).len() == 0,
    decreases refs.len(),
{
    if refs.len() > 0 {
        assert(found[0]);
        let rest = found.drop_first();
        assert forall|i: int| 0 <= i < rest.len() implies #[trigger] rest[i] by {
            assert(rest[i] == found[i + 1]);
        }
        law_found_includes_are_not_reported(refs.drop_first(), rest);
    }
}

proof fn lemma_local_links_are_local(ts: Seq<Seq<char>>)
    ensures
        forall|i: int| 0 <= i < local_links(ts).len() ==> is_local_target((#[trigger] local_links(ts)[i]).0),
    decreases ts.len(),
{
    if ts.len() > 0 {
        lemma_local_links_are_local(ts.drop_first());
        let head: Seq<(Seq<char>, Seq<char>)> = if is_local_target(ts[0]) {
            seq![(ts[0], link_path(ts[0]))]
        } else {
            seq![]
        };
        let rest = local_links(ts.drop_first());
        assert(local_links(ts) == head + rest);
        assert forall|i: int| 0 <= i < local_links(ts).len() implies is_local_target((#[trigger] local_links(ts)[i]).0) by {
            if i >= head.len() {
                assert(local_links(ts)[i] == rest[i - head.len()]);
            }
        }
    }
}

proof fn lemma_links_are_local(ls: Seq<Seq<char>>)
    ensures
        forall|i: int| 0 <= i < links_in(ls).len() ==> is_local_target((#[trigger] links_in(ls)[i]).0),
    decreases ls.len(),
{
    if ls.len() > 0 {
        lemma_links_are_local(ls.drop_first());
        let head = local_links(line_targets(ls[0]));
        lemma_local_links_are_local(line_targets(ls[0]));
        let rest = links_in(ls.drop_first());
        assert(links_in(ls) == head + rest);
        assert forall|i: int| 0 <= i < links_in(ls).len() implies is_local_target((#[trigger] links_in(ls)[i]).0) by {
            if i < head.len() {
                assert(links_in(ls)[i] == head[i]);
            } else {
                assert(links_in(ls)[i] == rest[i - head.len()]);
            }
        }
    }
}

/// External links (`http...`), anchors (`#...`) and empty targets are never
/// checked: every link that is checked is local.
pub proof fn law_checked_links_are_local(content: Seq<char>)
    ensures
        forall|i: int|
            0 <= i < links_in(lines(content)).len() ==> is_local_target(
                (#[trigger] links_in(lines(content))[i]).0,
            ),
{
    lemma_links_are_local(lines(content));
}

/// A link whose extension cannot name a page, such as an image, is never
/// reported, whatever is on disk; nor is one whose file was found.
pub proof fn law_only_missing_pages_are_reported(
    links: Seq<(Seq<char>, Seq<char>)>,
    exts: Seq<Option<Seq<char>>>,
    found: Seq<bool>,
)
    requires
        exts.len() == links.len(),
        found.len() == links.len(),
        forall|i: int| 0 <= i < links.len() ==> !is_page_extension(#[trigger] exts[i]) || found[i],
    ensures
        link_findings(links, exts, found).len() == 0,
    decreases links.len(),
{
    if links.len() > 0 {
        assert(!is_page_extension(exts[0]) || found[0]);
        let e = exts.drop_first();
        let f = found.drop_first();
        assert forall|i: int| 0 <= i < links.len() - 1 implies !is_page_extension(#[trigger] e[i]) || f[i] by {
            assert(e[i] == exts[i + 1]);
            assert(f[i] == found[i + 1]);
        }
        law_only_missing_pages_are_reported(links.drop_first(), e, f);
    }
}

proof fn lemma_count_without_open(s: Seq<char>, p: Seq<char>, i: int)
    requires
        p.len() > 0,
        forall|k: int| i <= k < s.len() ==> s[k] != p[0],
    ensures
        count_from(s, p, i) == 0,
    decreases s.len() - i,
{
    if p.len() == 0 || i < 0 || i + p.len() > s.len() {
    } else {
        assert(s.subrange(i, i + p.len())[0] == s[i]);
        assert(s.subrange(i, i + p.len()) != p);
        lemma_count_without_open(s, p, i + 1);
    }
}

/// A chapter with no `<` has no unclosed `<details>` or `<summary>`.
pub proof fn law_no_tags_no_html_findings(content: Seq<char>)
    requires
        !content.contains('<'),
    ensures
        html_findings(content).len() == 0,
{
    reveal_strlit("<");
    reveal_strlit("</");
    assert forall|k: int| 0 <= k < content.len() implies content[k] != '<' by {
        if content[k] == '<' {
            assert(content.contains('<'));
        }
    }
    assert forall|tag: Seq<char>| true implies count_matches(content, opening(tag)) == 0
        && count_matches(content, closing(tag)) == 0 by {
        assert(opening(tag)[0] == '<');
        assert(closing(tag)[0] == '<');
        lemma_count_without_open(content, opening(tag), 0);
        lemma_count_without_open(content, closing(tag), 0);
    }
    assert(count_matches(content, opening("details"@)) == 0);
    assert(count_matches(content, closing("details"@)) == 0);
    assert(count_matches(content, opening("summary"@)) == 0);
    assert(count_matches(content, closing("summary"@)) == 0);
}

proof fn lemma_includes_in_concat(l1: Seq<Seq<char>>, l2: Seq<Seq<char>>)
    ensures
        includes_in(l1 + l2) == includes_in(l1) + includes_in(l2),
    decreases l1.len(),
{
    if l1.len() == 0 {
        assert(l1 + l2 =~= l2);
        assert(includes_in(l1) + includes_in(l2) =~= includes_in(l2));
    } else {
        assert((l1 + l2)[0] == l1[0]);
        assert((l1 + l2).drop_first() =~= l1.drop_first() + l2);
        lemma_includes_in_concat(l1.drop_first(), l2);
        assert(includes_in(l1 + l2) =~= includes_in(l1) + includes_in(l2));
    }
}

proof fn lemma_include_findings_concat(
    r1: Seq<(Seq<char>, Seq<char>)>,
    f1: Seq<bool>,
    r2: Seq<(Seq<char>, Seq<char>)>,
    f2: Seq<bool>,
)
    requires
        f1.len() == r1.len(),
    ensures
        include_findings(r1 + r2, f1 + f2) == include_findings(r1, f1) + include_findings(r2, f2),
    decreases r1.len(),
{
    if r1.len() == 0 {
        assert(r1 + r2 =~= r2);
        assert(f1 + f2 =~= f2);
        assert(include_findings(r1, f1) + include_findings(r2, f2) =~= include_findings(r2, f2));
    } else {
        assert((r1 + r2)[0] == r1[0]);
        assert((f1 + f2)[0] == f1[0]);
        assert((r1 + r2).drop_first() =~= r1.drop_first() + r2);
        assert((f1 + f2).drop_first() =~= f1.drop_first() + f2);
        lemma_include_findings_concat(r1.drop_first(), f1.drop_first(), r2, f2);
        assert(include_findings(r1 + r2, f1 + f2) =~= include_findings(r1, f1) + include_findings(r2, f2));
    }
}

/// Checking the includes of a text joined after a complete line gives the
/// includes of the first part, then those of the second, and, for the same
/// answers from the disk, the findings of the first part, then those of
/// the second.
pub proof fn law_includes_split_at_line(a: Seq<char>, b: Seq<char>, found_a: Seq<bool>, found_b: Seq<bool>)
    requires
        a.len() == 0 || a.last() == '\n',
        found_a.len() == includes_in(lines(a)).len(),
        found_b.len() == includes_in(lines(b)).len(),
    ensures
        includes_in(lines(a + b)) == includes_in(lines(a)) + includes_in(lines(b)),
        include_findings(includes_in(lines(a + b)), found_a + found_b) == include_findings(
            includes_in(lines(a)),
            found_a,
        ) + include_findings(includes_in(lines(b)), found_b),
{
    lemma_lines_concat(a, b);
    lemma_includes_in_concat(lines(a), lines(b));
    lemma_include_findings_concat(includes_in(lines(a)), found_a, includes_in(lines(b)), found_b);
}

proof fn lemma_links_in_concat(l1: Seq<Seq<char>>, l2: Seq<Seq<char>>)
    ensures
        links_in(l1 + l2) == links_in(l1) + links_in(l2),
    decreases l1.len(),
{
    if l1.len() == 0 {
        assert(l1 + l2 =~= l2);
        assert(links_in(l1) + links_in(l2) =~= links_in(l2));
    } else {
        assert((l1 + l2)[0] == l1[0]);
        assert((l1 + l2).drop_first() =~= l1.drop_first() + l2);
        lemma_links_in_concat(l1.drop_first(), l2);
        assert(links_in(l1 + l2) =~= links_in(l1) + links_in(l2));
    }
}

proof fn lemma_link_findings_concat(
    l1: Seq<(Seq<char>, Seq<char>)>,
    e1: Seq<Option<Seq<char>>>,
    f1: Seq<bool>,
    l2: Seq<(Seq<char>, Seq<char>)>,
    e2: Seq<Option<Seq<char>>>,
    f2: Seq<bool>,
)
    requires
        e1.len() == l1.len(),
        f1.len() == l1.len(),
    ensures
        link_findings(l1 + l2, e1 + e2, f1 + f2) == link_findings(l1, e1, f1) + link_findings(
            l2,
            e2,
            f2,
        ),
    decreases l1.len(),
{
    if l1.len() == 0 {
        assert(l1 + l2 =~= l2);
        assert(e1 + e2 =~= e2);
        assert(f1 + f2 =~= f2);
        assert(link_findings(l1, e1, f1) + link_findings(l2, e2, f2) =~= link_findings(l2, e2, f2));
    } else {
        assert((l1 + l2)[0] == l1[0]);
        assert((e1 + e2)[0] == e1[0]);
        assert((f1 + f2)[0] == f1[0]);
        assert((l1 + l2).drop_first() =~= l1.drop_first() + l2);
        assert((e1 + e2).drop_first() =~= e1.drop_first() + e2);
        assert((f1 + f2).drop_first() =~= f1.drop_first() + f2);
        lemma_link_findings_concat(l1.drop_first(), e1.drop_first(), f1.drop_first(), l2, e2, f2);
        assert(link_findings(l1 + l2, e1 + e2, f1 + f2) =~= link_findings(l1, e1, f1)
            + link_findings(l2, e2, f2));
    }
}

/// Checking the links of a text joined after a complete line gives the
/// links of the first part, then those of the second, and, for the same
/// answers from the disk, the findings of the first part, then those of
/// the second.
pub proof fn law_links_split_at_line(a: Seq<char>, b: Seq<char>, found_a: Seq<bool>, found_b: Seq<bool>)
    requires
        a.len() == 0 || a.last() == '\n',
        found_a.len() == links_in(lines(a)).len(),
        found_b.len() == links_in(lines(b)).len(),
    ensures
        links_in(lines(a + b)) == links_in(lines(a)) + links_in(lines(b)),
        link_findings(
            links_in(lines(a + b)),
            link_extensions(links_in(lines(a + b))),
            found_a + found_b,
        ) == link_findings(links_in(lines(a)), link_extensions(links_in(lines(a))), found_a)
            + link_findings(links_in(lines(b)), link_extensions(links_in(lines(b))), found_b),
{
    lemma_lines_concat(a, b);
    let la = links_in(lines(a));
    let lb = links_in(lines(b));
    lemma_links_in_concat(lines(a), lines(b));
    assert(link_extensions(la + lb) =~= link_extensions(la) + link_extensions(lb));
    lemma_link_findings_concat(la, link_extensions(la), found_a, lb, link_extensions(lb), found_b);
}

proof fn lemma_count_shift(a: Seq<char>, b: Seq<char>, p: Seq<char>, j: int)
    requires
        p.len() > 0,
        0 <= j,
    ensures
        count_from(a + b, p, a.len() + j) == count_from(b, p, j),
    decreases b.len() - j,
{
    if j + p.len() <= b.len() {
        assert((a + b).subrange(a.len() + j, a.len() + j + p.len()) =~= b.subrange(j, j + p.len()));
        lemma_count_shift(a, b, p, j + p.len());
        lemma_count_shift(a, b, p, j + 1);
    }
}

proof fn lemma_count_concat(a: Seq<char>, b: Seq<char>, p: Seq<char>, i: int)
    requires
        p.len() > 0,
        0 <= i <= a.len(),
        forall|j: int|
            0 <= j < a.len() && a.len() < j + p.len() <= a.len() + b.len() ==> #[trigger] (a
                + b).subrange(j, j + p.len()) != p,
    ensures
        count_from(a + b, p, i) == count_from(a, p, i) + count_from(b, p, 0),
    decreases a.len() - i,
{
    let m = p.len() as int;
    if i == a.len() {
        lemma_count_shift(a, b, p, 0);
    } else if i + m <= a.len() {
        assert((a + b).subrange(i, i + m) =~= a.subrange(i, i + m));
        lemma_count_concat(a, b, p, i + m);
        lemma_count_concat(a, b, p, i + 1);
    } else if i + m > a.len() + b.len() {
    } else {
        assert((a + b).subrange(i, i + m) != p);
        lemma_count_concat(a, b, p, i + 1);
    }
}

/// Whether `p` is `<` followed by characters none of which is `<`, as each
/// opening and closing tag is.
pub open spec fn is_tag_shaped(p: Seq<char>) -> bool {
    p.len() > 0 && p[0] == '<' && forall|k: int| 1 <= k < p.len() ==> p[k] != '<'
}

/// Counting a tag in a text joined before a `<` adds the counts of the two
/// parts: no tag can run across the join.
proof fn lemma_count_append_at_tag(a: Seq<char>, b: Seq<char>, p: Seq<char>)
    requires
        is_tag_shaped(p),
        b.len() == 0 || b[0] == '<',
    ensures
        count_matches(a + b, p) == count_matches(a, p) + count_matches(b, p),
{
    assert forall|j: int|
        0 <= j < a.len() && a.len() < j + p.len() <= a.len() + b.len() implies #[trigger] (a
            + b).subrange(j, j + p.len()) != p by {
        let w = (a + b).subrange(j, j + p.len());
        assert(w[a.len() - j] == (a + b)[a.len() as int]);
        assert((a + b)[a.len() as int] == b[0]);
    }
    lemma_count_concat(a, b, p, 0);
}

proof fn lemma_tags_are_tag_shaped(tag: Seq<char>)
    requires
        forall|k: int| 0 <= k < tag.len() ==> tag[k] != '<',
    ensures
        is_tag_shaped(opening(tag)),
        is_tag_shaped(closing(tag)),
{
    reveal_strlit("<");
    reveal_strlit("</");
    reveal_strlit(">");
    let o = opening(tag);
    let c = closing(tag);
    assert forall|k: int| 1 <= k < o.len() implies o[k] != '<' by {
        if k < 1 + tag.len() {
            assert(o[k] == tag[k - 1]);
        }
    }
    assert forall|k: int| 1 <= k < c.len() implies c[k] != '<' by {
        if 2 <= k < 2 + tag.len() {
            assert(c[k] == tag[k - 2]);
        }
    }
}

proof fn lemma_block_tags_are_tag_shaped()
    ensures
        is_tag_shaped(opening("details"@)),
        is_tag_shaped(closing("details"@)),
        is_tag_shaped(opening("summary"@)),
        is_tag_shaped(closing("summary"@)),
{
    reveal_strlit("details");
    reveal_strlit("summary");
    lemma_tags_are_tag_shaped("details"@);
    lemma_tags_are_tag_shaped("summary"@);
}

/// Appending a block that starts with `<` and opens each of `<details>`
/// and `<summary>` as often as it closes it changes no finding.
pub proof fn law_balanced_block_changes_nothing(content: Seq<char>, block: Seq<char>)
    requires
        block.len() == 0 || block[0] == '<',
        count_matches(block, opening("details"@)) == count_matches(block, closing("details"@)),
        count_matches(block, opening("summary"@)) == count_matches(block, closing("summary"@)),
    ensures
        html_findings(content + block) == html_findings(content),
{
    lemma_block_tags_are_tag_shaped();
    lemma_count_append_at_tag(content, block, opening("details"@));
    lemma_count_append_at_tag(content, block, closing("details"@));
    lemma_count_append_at_tag(content, block, opening("summary"@));
    lemma_count_append_at_tag(content, block, closing("summary"@));
}

/// A piece that starts with its only `<` holds a tag once where it starts
/// with it, and never otherwise.
proof fn lemma_count_tag_piece(q: Seq<char>, p: Seq<char>)
    requires
        is_tag_shaped(p),
        q.len() > 0,
        q[0] == '<',
        forall|k: int| 1 <= k < q.len() ==> q[k] != '<',
    ensures
        count_matches(q, p) == if p.is_prefix_of(q) {
            1int
        } else {
            0int
        },
{
    let m = p.len() as int;
    if m <= q.len() && q.subrange(0, m) == p {
        lemma_count_without_open(q, p, m);
        assert(p.is_prefix_of(q));
    } else {
        lemma_count_without_open(q, p, 1);
        assert(!p.is_prefix_of(q));
    }
}

/// The counts of the four tags in a piece that starts with its only `<`.
proof fn lemma_piece_counts(q: Seq<char>)
    requires
        q.len() > 0,
        q[0] == '<',
        forall|k: int| 1 <= k < q.len() ==> q[k] != '<',
    ensures
        count_matches(q, opening("details"@)) == (if opening("details"@).is_prefix_of(q) {
            1int
        } else {
            0int
        }),
        count_matches(q, closing("details"@)) == (if closing("details"@).is_prefix_of(q) {
            1int
        } else {
            0int
        }),
        count_matches(q, opening("summary"@)) == (if opening("summary"@).is_prefix_of(q) {
            1int
        } else {
            0int
        }),
        count_matches(q, closing("summary"@)) == (if closing("summary"@).is_prefix_of(q) {
            1int
        } else {
            0int
        }),
{
    lemma_block_tags_are_tag_shaped();
    lemma_count_tag_piece(q, opening("details"@));
    lemma_count_tag_piece(q, closing("details"@));
    lemma_count_tag_piece(q, opening("summary"@));
    lemma_count_tag_piece(q, closing("summary"@));
}

/// Appending a closed `<details>` block with its `<summary>` changes no
/// finding.
#[verifier::spinoff_prover]
#[verifier::rlimit(60)]
pub proof fn law_closed_details_block_changes_nothing(content: Seq<char>)
    ensures
        html_findings(content + "<details>\n<summary>s</summary>\n</details>\n"@) == html_findings(
            content,
        ),
{
    reveal_strlit("<details>\n<summary>s</summary>\n</details>\n");
    reveal_strlit("<");
    reveal_strlit("</");
    reveal_strlit(">");
    reveal_strlit("details");
    reveal_strlit("summary");
    let block = "<details>\n<summary>s</summary>\n</details>\n"@;
    let p1 = block.subrange(0, 10);
    let p2 = block.subrange(10, 20);
    let p3 = block.subrange(20, 31);
    let p4 = block.subrange(31, 42);
    assert(block.len() == 42);
    assert(block =~= p1 + (p2 + (p3 + p4)));
    lemma_block_tags_are_tag_shaped();
    let od = opening("details"@);
    let cd = closing("details"@);
    let os = opening("summary"@);
    let cs = closing("summary"@);
    assert(od =~= seq!['<', 'd', 'e', 't', 'a', 'i', 'l', 's', '>']);
    assert(cd =~= seq!['<', '/', 'd', 'e', 't', 'a', 'i', 'l', 's', '>']);
    assert(os =~= seq!['<', 's', 'u', 'm', 'm', 'a', 'r', 'y', '>']);
    assert(cs =~= seq!['<', '/', 's', 'u', 'm', 'm', 'a', 'r', 'y', '>']);
    assert(p1 =~= od + seq!['\n']);
    assert(p2 =~= os + seq!['s']);
    assert(p3 =~= cs + seq!['\n']);
    assert(p4 =~= cd + seq!['\n']);
    lemma_piece_counts(p1);
    lemma_piece_counts(p2);
    lemma_piece_counts(p3);
    lemma_piece_counts(p4);
    assert(od.is_prefix_of(p1));
    assert(os.is_prefix_of(p2));
    assert(cs.is_prefix_of(p3));
    assert(cd.is_prefix_of(p4));
    assert(!cd.is_prefix_of(p1) && !os.is_prefix_of(p1) && !cs.is_prefix_of(p1)) by {
        assert(p1[1] == 'd');
    }
    assert(!od.is_prefix_of(p2) && !cd.is_prefix_of(p2) && !cs.is_prefix_of(p2)) by {
        assert(p2[1] == 's');
    }
    assert(!od.is_prefix_of(p3) && !os.is_prefix_of(p3) && !cd.is_prefix_of(p3)) by {
        assert(p3[1] == '/');
        assert(p3[2] == 's');
    }
    assert(!od.is_prefix_of(p4) && !os.is_prefix_of(p4) && !cs.is_prefix_of(p4)) by {
        assert(p4[1] == '/');
        assert(p4[2] == 'd');
    }
    let tags = seq![od, cd, os, cs];
    assert forall|i: int| 0 <= i < 4 implies count_matches(block, #[trigger] tags[i])
        == count_matches(p1, tags[i]) + count_matches(p2, tags[i]) + count_matches(p3, tags[i])
        + count_matches(p4, tags[i]) by {
        lemma_count_append_at_tag(p3, p4, tags[i]);
        lemma_count_append_at_tag(p2, p3 + p4, tags[i]);
        lemma_count_append_at_tag(p1, p2 + (p3 + p4), tags[i]);
    }
    assert(count_matches(block, tags[0]) == 1);
    assert(count_matches(block, tags[1]) == 1);
    assert(count_matches(block, tags[2]) == 1);
    assert(count_matches(block, tags[3]) == 1);
    law_balanced_block_changes_nothing(content, block);
}

/// The finding for a missing page.
pub open spec fn broken_link(target: Seq<char>) -> (Seq<char>, Seq<char>) {
    ("html::broken-link"@, "broken internal link: "@ + target)
}

/// The finding for a missing include.
pub open spec fn broken_include(inner: Seq<char>) -> (Seq<char>, Seq<char>) {
    ("html::broken-include"@, "include path does not exist: "@ + inner)
}

/// The links are reported exactly where they should be: every link whose
/// extension may name a page and whose file was not found has its finding,
/// and every finding is that of such a link.
pub proof fn law_reported_links_are_the_missing_pages(
    links: Seq<(Seq<char>, Seq<char>)>,
    exts: Seq<Option<Seq<char>>>,
    found: Seq<bool>,
)
    requires
        exts.len() == links.len(),
        found.len() == links.len(),
    ensures
        forall|i: int|
            0 <= i < links.len() && is_page_extension(exts[i]) && !found[i] ==> link_findings(
                links,
                exts,
                found,
            ).contains(#[trigger] broken_link(links[i].0)),
        forall|k: int|
            0 <= k < link_findings(links, exts, found).len() ==> exists|i: int|
                0 <= i < links.len() && is_page_extension(exts[i]) && !found[i]
                    && #[trigger] link_findings(links, exts, found)[k] == broken_link(links[i].0),
    decreases links.len(),
{
    if links.len() > 0 {
        let l2 = links.drop_first();
        let e2 = exts.drop_first();
        let f2 = found.drop_first();
        law_reported_links_are_the_missing_pages(l2, e2, f2);
        let all = link_findings(links, exts, found);
        let rest = link_findings(l2, e2, f2);
        let head: Seq<(Seq<char>, Seq<char>)> = if is_page_extension(exts[0]) && !found[0] {
            seq![broken_link(links[0].0)]
        } else {
            seq![]
        };
        assert(all == head + rest);
        assert forall|i: int|
            0 <= i < links.len() && is_page_extension(exts[i]) && !found[i] implies all.contains(
                #[trigger] broken_link(links[i].0),
            ) by {
            if i == 0 {
                assert(all[0] == broken_link(links[0].0));
            } else {
                assert(l2[i - 1] == links[i] && e2[i - 1] == exts[i] && f2[i - 1] == found[i]);
                assert(rest.contains(broken_link(l2[i - 1].0)));
                let k = choose|k: int| 0 <= k < rest.len() && rest[k] == broken_link(l2[i - 1].0);
                assert(all[head.len() + k] == rest[k]);
            }
        }
        assert forall|k: int| 0 <= k < all.len() implies exists|i: int|
            0 <= i < links.len() && is_page_extension(exts[i]) && !found[i] && #[trigger] all[k]
                == broken_link(links[i].0) by {
            if k < head.len() {
                assert(all[k] == broken_link(links[0].0));
            } else {
                assert(all[k] == rest[k - head.len()]);
                let i2 = choose|i2: int|
                    0 <= i2 < l2.len() && is_page_extension(e2[i2]) && !f2[i2] && #[trigger] rest[k
                        - head.len()] == broken_link(l2[i2].0);
                assert(l2[i2] == links[i2 + 1] && e2[i2] == exts[i2 + 1] && f2[i2] == found[i2 + 1]);
            }
        }
    }
}

/// The includes are reported exactly where they should be: every include
/// whose file was not found has its finding, and every finding is that of
/// such an include.
pub proof fn law_reported_includes_are_the_missing_files(
    refs: Seq<(Seq<char>, Seq<char>)>,
    found: Seq<bool>,
)
    requires
        found.len() == refs.len(),
    ensures
        forall|i: int|
            0 <= i < refs.len() && !found[i] ==> include_findings(refs, found).contains(
                #[trigger] broken_include(refs[i].0),
            ),
        forall|k: int|
            0 <= k < include_findings(refs, found).len() ==> exists|i: int|
                0 <= i < refs.len() && !found[i] && #[trigger] include_findings(refs, found)[k]
                    == broken_include(refs[i].0),
    decreases refs.len(),
{
    if refs.len() > 0 {
        let r2 = refs.drop_first();
        let f2 = found.drop_first();
        law_reported_includes_are_the_missing_files(r2, f2);
        let all = include_findings(refs, found);
        let rest = include_findings(r2, f2);
        let head: Seq<(Seq<char>, Seq<char>)> = if found[0] {
            seq![]
        } else {
            seq![broken_include(refs[0].0)]
        };
        assert(all == head + rest);
        assert forall|i: int| 0 <= i < refs.len() && !found[i] implies all.contains(
            #[trigger] broken_include(refs[i].0),
        ) by {
            if i == 0 {
                assert(all[0] == broken_include(refs[0].0));
            } else {
                assert(r2[i - 1] == refs[i] && f2[i - 1] == found[i]);
                assert(rest.contains(broken_include(r2[i - 1].0)));
                let k = choose|k: int| 0 <= k < rest.len() && rest[k] == broken_include(r2[i - 1].0);
                assert(all[head.len() + k] == rest[k]);
            }
        }
        assert forall|k: int| 0 <= k < all.len() implies exists|i: int|
            0 <= i < refs.len() && !found[i] && #[trigger] all[k] == broken_include(refs[i].0) by {
            if k < head.len() {
                assert(all[k] == broken_include(refs[0].0));
            } else {
                assert(all[k] == rest[k - head.len()]);
                let i2 = choose|i2: int|
                    0 <= i2 < r2.len() && !f2[i2] && #[trigger] rest[k - head.len()] == broken_include(
                        r2[i2].0,
                    );
                assert(r2[i2] == refs[i2 + 1] && f2[i2] == found[i2 + 1]);
            }
        }
    }
}

/// A chapter that opens `<details>` and never closes it is reported for
/// it, however many times it opens it; likewise for `<summary>`.
pub proof fn law_opened_never_closed_is_reported(content: Seq<char>)
    ensures
        count_matches(content, opening("details"@)) > 0 && count_matches(
            content,
            closing("details"@),
        ) == 0 ==> html_findings(content).contains(
            ("html::unclosed-details"@, "unclosed <details> block"@),
        ),
        count_matches(content, opening("summary"@)) > 0 && count_matches(
            content,
            closing("summary"@),
        ) == 0 ==> html_findings(content).contains(
            ("html::unclosed-summary"@, "unclosed <summary> block"@),
        ),
{
    reveal_strlit("unclosed <");
    reveal_strlit("> block");
    reveal_strlit("details");
    reveal_strlit("summary");
    reveal_strlit("unclosed <details> block");
    reveal_strlit("unclosed <summary> block");
    assert("unclosed <"@ + "details"@ + "> block"@ =~= "unclosed <details> block"@);
    assert("unclosed <"@ + "summary"@ + "> block"@ =~= "unclosed <summary> block"@);
    let d = optional(tag_balance(content, "details"@, "html::unclosed-details"@));
    let s = optional(tag_balance(content, "summary"@, "html::unclosed-summary"@));
    assert(html_findings(content) == d + s);
    if count_matches(content, opening("details"@)) > 0 && count_matches(content, closing("details"@)) == 0 {
        assert(html_findings(content)[0] == ("html::unclosed-details"@, "unclosed <details> block"@));
    }
    if count_matches(content, opening("summary"@)) > 0 && count_matches(content, closing("summary"@)) == 0 {
        assert(html_findings(content)[d.len() as int] == ("html::unclosed-summary"@, "unclosed <summary> block"@));
    }
}

} // verus!
