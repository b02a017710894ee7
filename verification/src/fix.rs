//! Values that a fix writes into a chapter's new frontmatter.
use vstd::prelude::*;

use crate::text::{
    chars_of, find_last_char, last_index_of, lemma_last_index_of_found, window_ends_with,
    window_string,
};

verus! {

/// `s` without the copies of `p` it ends with (`str::trim_end_matches`
/// with a string pattern).
pub open spec fn trim_end_suffix(s: Seq<char>, p: Seq<char>) -> Seq<char>
    decreases s.len(),
{
    if p.len() > 0 && p.is_suffix_of(s) {
        trim_end_suffix(s.take(s.len() - p.len()), p)
    } else {
        s
    }
}

/// The title of a chapter: the last component of its path, with any `.md`
/// endings removed first.
pub open spec fn chapter_title_of(path: Seq<char>) -> Seq<char> {
    let t = trim_end_suffix(path, ".md"@);
    match last_index_of(t, '/') {
        Some(k) => t.skip(k + 1),
        None => t,
    }
}

/// The title that a fix gives a chapter that has no frontmatter.
pub fn chapter_title(path: &str) -> (r: String)
    ensures
        r@ == chapter_title_of(path@),
{
    let s = chars_of(path);
    let md = chars_of(".md");
    proof {
        reveal_strlit(".md");
    }
    let mut end = s.len();
    proof {
        assert(s@.subrange(0, end as int) =~= s@);
    }
    while window_ends_with(&s, 0, end, &md)
        invariant
            end <= s.len(),
            s@ == path@,
            md@ == ".md"@,
            md@.len() == 3,
            trim_end_suffix(s@.subrange(0, end as int), md@) == trim_end_suffix(path@, ".md"@),
        decreases end,
    {
        proof {
            let w = s@.subrange(0, end as int);
            assert(w.take(w.len() - 3) =~= s@.subrange(0, end - 3));
        }
        end = end - 3;
    }
    let start = match find_last_char(&s, 0, end, '/') {
        Some(k) => k + 1,
        None => 0,
    };
    proof {
        let t = s@.subrange(0, end as int);
        if start > 0 {
            assert(t.skip(start as int) =~= s@.subrange(start as int, end as int));
        } else {
            assert(t =~= s@.subrange(0, end as int));
        }
    }
    window_string(path, start, end)
}

/// The language that a fix writes: none where `lang` is an excluded field,
/// else the book's language.
pub open spec fn language_to_write(excluded: Seq<Seq<char>>, lang: Seq<char>) -> Seq<char> {
    if excluded.contains("lang"@) {
        Seq::empty()
    } else {
        lang
    }
}

/// The language that a fix writes into a chapter's new frontmatter.
pub fn fix_language(excluded: &Vec<String>, lang: &str) -> (r: String)
    ensures
        r@ == language_to_write(excluded.deep_view(), lang@),
{
    let key = "lang".to_owned();
    let ghost ex = excluded.deep_view();
    let mut i: usize = 0;
    while i < excluded.len()
        invariant
            i <= excluded.len(),
            ex == excluded.deep_view(),
            key@ == "lang"@,
            forall|j: int| 0 <= j < i ==> ex[j] != "lang"@,
        decreases excluded.len() - i,
    {
        if excluded[i] == key {
            proof {
                assert(ex[i as int] == "lang"@);
                assert(ex.contains("lang"@));
            }
            return String::new();
        }
        i = i + 1;
    }
    proof {
        assert(!ex.contains("lang"@));
    }
    lang.to_owned()
}

/// Where `lang` is among the excluded fields, at whatever place and beside
/// whatever other fields, no language is written.
pub proof fn law_excluded_lang_anywhere_writes_none(
    excluded: Seq<Seq<char>>,
    lang: Seq<char>,
    i: int,
)
    requires
        0 <= i < excluded.len(),
        excluded[i] == "lang"@,
    ensures
        language_to_write(excluded, lang).len() == 0,
{
    assert(excluded.contains("lang"@));
}

/// Where `lang` is not among the excluded fields, the book's language is
/// written unchanged.
pub proof fn law_lang_not_excluded_writes_it(excluded: Seq<Seq<char>>, lang: Seq<char>)
    requires
        forall|i: int| 0 <= i < excluded.len() ==> excluded[i] != "lang"@,
    ensures
        language_to_write(excluded, lang) == lang,
{
}

/// The order of the excluded fields does not matter: listing two groups of
/// fields either way round writes the same language.
pub proof fn law_order_of_excluded_fields_is_irrelevant(
    a: Seq<Seq<char>>,
    b: Seq<Seq<char>>,
    lang: Seq<char>,
)
    ensures
        language_to_write(a + b, lang) == language_to_write(b + a, lang),
{
    assert((a + b).contains("lang"@) == (b + a).contains("lang"@)) by {
        if (a + b).contains("lang"@) {
            let i = choose|i: int| 0 <= i < (a + b).len() && (a + b)[i] == "lang"@;
            if i < a.len() {
                assert((b + a)[b.len() + i] == a[i]);
            } else {
                assert((b + a)[i - a.len()] == b[i - a.len()]);
            }
        }
        if (b + a).contains("lang"@) {
            let i = choose|i: int| 0 <= i < (b + a).len() && (b + a)[i] == "lang"@;
            if i < b.len() {
                assert((a + b)[a.len() + i] == b[i]);
            } else {
                assert((a + b)[i - b.len()] == a[i - b.len()]);
            }
        }
    }
}

/// A chapter's title never holds a `/`: it is one component of the path.
pub proof fn law_title_is_one_component(path: Seq<char>)
    ensures
        !chapter_title_of(path).contains('/'),
{
    let t = trim_end_suffix(path, ".md"@);
    lemma_last_index_of_found(t, '/');
    let r = chapter_title_of(path);
    if r.contains('/') {
        let j = choose|j: int| 0 <= j < r.len() && r[j] == '/';
        match last_index_of(t, '/') {
            Some(k) => {
                assert(r[j] == t[k + 1 + j]);
            },
            None => {
                assert(r[j] == t[j]);
            },
        }
    }
}

/// A `.md` ending does not change a chapter's title.
pub proof fn law_md_ending_does_not_change_title(path: Seq<char>)
    ensures
        chapter_title_of(path + ".md"@) == chapter_title_of(path),
{
    reveal_strlit(".md");
    let p = path + ".md"@;
    assert(".md"@.is_suffix_of(p)) by {
        assert(p.subrange(p.len() - 3, p.len() as int) =~= ".md"@);
    }
    assert(p.take(p.len() - 3) =~= path);
}

} // verus!
