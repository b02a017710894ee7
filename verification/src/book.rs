//! Settings read from `book.toml` and `fmf.toml`.
use vstd::prelude::*;

use crate::text::{
    lemma_index_of_at, lemma_lines_concat, strip_cr, trim_end, trim_start,
    chars_of, find_char, index_of, lemma_index_of_bounds, lemma_line_window, line_windows, lines,
    second_piece, second_piece_window, skip_leading, skip_trailing, split, trim, trim_end_matches,
    trim_matches, trim_matches_window, trim_start_matches, trim_window, window_equals,
    window_starts_with, window_string, windows, windows_inside,
};

verus! {

/// The language of a book: the value on the first line that starts with
/// `language` and holds a `=`, trimmed of whitespace and then of quotes;
/// `en` where no line does.
pub open spec fn language_in(lines: Seq<Seq<char>>) -> Seq<char>
    decreases lines.len(),
{
    if lines.len() == 0 {
        "en"@
    } else if "language"@.is_prefix_of(lines[0]) && second_piece(lines[0], '=') is Some {
        trim_matches(trim(second_piece(lines[0], '=')->0), '"')
    } else {
        language_in(lines.drop_first())
    }
}

/// Reads the book's language from the text of `book.toml`; `en` where it
/// names none.
pub fn parse_language(content: &str) -> (r: String)
    ensures
        r@ == language_in(lines(content@)),
{
    let s = chars_of(content);
    let wins = line_windows(&s);
    let key = chars_of("language");
    let ghost ls = lines(s@);
    proof {
        assert(ls.skip(0) =~= ls);
    }
    let mut i: usize = 0;
    while i < wins.len()
        invariant
            s@ == content@,
            key@ == "language"@,
            windows_inside(s@, wins@),
            windows(s@, wins@) == ls,
            ls == lines(content@),
            i <= wins.len(),
            language_in(ls) == language_in(ls.skip(i as int)),
        decreases wins.len() - i,
    {
        let (lo, hi) = wins[i];
        proof {
            lemma_line_window(s@, wins@, i as int);
        }
        if window_starts_with(&s, lo, hi, &key) {
            if let Some((a, b)) = second_piece_window(&s, lo, hi, '=') {
                let (a1, b1) = trim_window(&s, a, b);
                let (a2, b2) = trim_matches_window(&s, a1, b1, '"');
                return window_string(content, a2, b2);
            }
        }
        i = i + 1;
    }
    proof {
        assert(ls.skip(i as int) =~= Seq::<Seq<char>>::empty());
    }
    "en".to_owned()
}

/// A field name as the list spells it: trimmed of whitespace, then of quotes.
pub open spec fn cleaned(piece: Seq<char>) -> Seq<char> {
    trim_matches(trim(piece), '"')
}

/// The cleaned pieces, in order, less those that clean to nothing.
pub open spec fn kept_fields(pieces: Seq<Seq<char>>) -> Seq<Seq<char>>
    decreases pieces.len(),
{
    if pieces.len() == 0 {
        seq![]
    } else {
        let f = cleaned(pieces[0]);
        (if f.len() > 0 {
            seq![f]
        } else {
            seq![]
        }) + kept_fields(pieces.drop_first())
    }
}

/// The field names of a list such as `["author", "lang"]`: the value is
/// trimmed, its leading `[`s and trailing `]`s are dropped, and the rest is
/// split at each `,`.
pub open spec fn field_list(value: Seq<char>) -> Seq<Seq<char>> {
    let inner = trim_end_matches(trim_start_matches(trim(value), '['), ']');
    kept_fields(split(inner, ','))
}

/// The excluded fields: the list on the first line that, trimmed, starts
/// with `exclude_fields` and holds a `=`; none where no line does.
pub open spec fn excluded_in(lines: Seq<Seq<char>>) -> Seq<Seq<char>>
    decreases lines.len(),
{
    if lines.len() == 0 {
        seq![]
    } else if "exclude_fields"@.is_prefix_of(trim(lines[0])) && second_piece(lines[0], '=') is Some {
        field_list(second_piece(lines[0], '=')->0)
    } else {
        excluded_in(lines.drop_first())
    }
}

/// The field names of the list in the window `lo..hi` of `s`.
fn field_list_of(text: &str, s: &Vec<char>, lo: usize, hi: usize) -> (r: Vec<String>)
    requires
        s@ == text@,
        lo <= hi <= s.len(),
    ensures
        r.deep_view() == field_list(s@.subrange(lo as int, hi as int)),
{
    let ghost w = s@.subrange(lo as int, hi as int);
    let (a0, b0) = trim_window(s, lo, hi);
    let a = skip_leading(s, a0, b0, '[');
    let b = skip_trailing(s, a, b0, ']');
    let ghost inner = s@.subrange(a as int, b as int);
    let ghost target = kept_fields(split(inner, ','));
    let mut out: Vec<String> = Vec::new();
    let mut pos = a;
    proof {
        assert(out.deep_view() =~= Seq::<Seq<char>>::empty());
        assert(s@.subrange(pos as int, b as int) == inner);
        assert(out.deep_view() + target =~= target);
    }
    loop
        invariant_except_break
            s@ == text@,
            a <= pos <= b <= s.len(),
            out.deep_view() + kept_fields(split(s@.subrange(pos as int, b as int), ',')) == target,
        ensures
            out.deep_view() == target,
        decreases b - pos,
    {
        let ghost piece_rest = s@.subrange(pos as int, b as int);
        let ghost before = out.deep_view();
        let k = find_char(s, pos, b, ',');
        let (x0, y0) = trim_window(s, pos, k);
        let (x, y) = trim_matches_window(s, x0, y0, '"');
        proof {
            lemma_index_of_bounds(piece_rest, ',');
            assert(piece_rest.take(k - pos) =~= s@.subrange(pos as int, k as int));
        }
        if y > x {
            let f = window_string(text, x, y);
            out.push(f);
            proof {
                assert(out.deep_view() =~= before.push(s@.subrange(x as int, y as int)));
            }
        }
        let ghost g = cleaned(s@.subrange(pos as int, k as int));
        if k < b {
            proof {
                let pieces = split(piece_rest, ',');
                assert(piece_rest.skip(k - pos + 1) =~= s@.subrange(k + 1, b as int));
                assert(pieces == seq![s@.subrange(pos as int, k as int)] + split(
                    s@.subrange(k + 1, b as int),
                    ',',
                ));
                assert(pieces.drop_first() =~= split(s@.subrange(k + 1, b as int), ','));
                assert(pieces[0] == s@.subrange(pos as int, k as int));
                if g.len() > 0 {
                    assert(out.deep_view() =~= before + seq![g]);
                } else {
                    assert(out.deep_view() =~= before);
                }
                assert(out.deep_view() + kept_fields(split(s@.subrange(k + 1, b as int), ','))
                    =~= before + kept_fields(pieces));
            }
            pos = k + 1;
        } else {
            proof {
                let pieces = split(piece_rest, ',');
                assert(piece_rest.take(k - pos) =~= piece_rest);
                assert(pieces == seq![piece_rest]);
                assert(pieces.drop_first() =~= Seq::<Seq<char>>::empty());
                assert(kept_fields(pieces.drop_first()) =~= Seq::<Seq<char>>::empty());
                if g.len() > 0 {
                    assert(out.deep_view() =~= before + seq![g]);
                } else {
                    assert(out.deep_view() =~= before);
                }
                assert(out.deep_view() =~= before + kept_fields(pieces));
            }
            break;
        }
    }
    out
}

/// Reads the fields that checks and fixes leave alone from the text of
/// `fmf.toml`; none where it names none.
pub fn parse_excluded_fields(content: &str) -> (r: Vec<String>)
    ensures
        r.deep_view() == excluded_in(lines(content@)),
{
    let s = chars_of(content);
    let wins = line_windows(&s);
    let key = chars_of("exclude_fields");
    let ghost ls = lines(s@);
    proof {
        assert(ls.skip(0) =~= ls);
    }
    let mut i: usize = 0;
    while i < wins.len()
        invariant
            s@ == content@,
            key@ == "exclude_fields"@,
            windows_inside(s@, wins@),
            windows(s@, wins@) == ls,
            ls == lines(content@),
            i <= wins.len(),
            excluded_in(ls) == excluded_in(ls.skip(i as int)),
        decreases wins.len() - i,
    {
        let (lo, hi) = wins[i];
        proof {
            lemma_line_window(s@, wins@, i as int);
        }
        let (t0, t1) = trim_window(&s, lo, hi);
        if window_starts_with(&s, t0, t1, &key) {
            if let Some((a, b)) = second_piece_window(&s, lo, hi, '=') {
                return field_list_of(content, &s, a, b);
            }
        }
        i = i + 1;
    }
    proof {
        assert(ls.skip(i as int) =~= Seq::<Seq<char>>::empty());
    }
    Vec::new()
}

/// A key with its value, both as text.
pub open spec fn entry_views(e: Seq<(String, String)>) -> Seq<(Seq<char>, Seq<char>)> {
    e.map_values(|p: (String, String)| (p.0@, p.1@))
}

/// The value of the last entry with key `k`.
pub open spec fn value_for(e: Seq<(Seq<char>, Seq<char>)>, k: Seq<char>) -> Option<Seq<char>>
    decreases e.len(),
{
    if e.len() == 0 {
        None
    } else if e.last().0 == k {
        Some(e.last().1)
    } else {
        value_for(e.drop_last(), k)
    }
}

/// The map that a list of entries gives, a later entry winning over an
/// earlier one with the same key.
pub open spec fn map_of(e: Seq<(Seq<char>, Seq<char>)>) -> Map<Seq<char>, Seq<char>> {
    Map::new(|k: Seq<char>| value_for(e, k) is Some, |k: Seq<char>| value_for(e, k)->0)
}

/// Fields to inject into every chapter's frontmatter: a map from key to
/// value.
pub struct InjectFields {
    entries: Vec<(String, String)>,
}

impl InjectFields {
    /// No key occurs twice among the entries.
    #[verifier::type_invariant]
    closed spec fn keys_distinct(self) -> bool {
        forall|i: int, j: int|
            0 <= i < j < self.entries.len() ==> (#[trigger] self.entries@[i]).0@ != (
            #[trigger] self.entries@[j]).0@
    }
}

impl View for InjectFields {
    type V = Map<Seq<char>, Seq<char>>;

    closed spec fn view(&self) -> Map<Seq<char>, Seq<char>> {
        map_of(entry_views(self.entries@))
    }
}

proof fn lemma_value_for_push(e: Seq<(Seq<char>, Seq<char>)>, x: (Seq<char>, Seq<char>), k: Seq<char>)
    ensures
        value_for(e.push(x), k) == if x.0 == k {
            Some(x.1)
        } else {
            value_for(e, k)
        },
{
    assert(e.push(x).drop_last() =~= e);
}

proof fn lemma_value_for_update(
    e: Seq<(Seq<char>, Seq<char>)>,
    i: int,
    x: (Seq<char>, Seq<char>),
    k: Seq<char>,
)
    requires
        0 <= i < e.len(),
        e[i].0 == x.0,
        forall|j: int| i < j < e.len() ==> e[j].0 != x.0,
    ensures
        value_for(e.update(i, x), k) == if x.0 == k {
            Some(x.1)
        } else {
            value_for(e, k)
        },
    decreases e.len(),
{
    let u = e.update(i, x);
    if i == e.len() - 1 {
        assert(u.drop_last() =~= e.drop_last());
    } else {
        assert(u.drop_last() =~= e.drop_last().update(i, x));
        assert(u.last() == e.last());
        lemma_value_for_update(e.drop_last(), i, x, k);
    }
}

proof fn lemma_map_of_insert(
    e0: Seq<(Seq<char>, Seq<char>)>,
    e1: Seq<(Seq<char>, Seq<char>)>,
    x: (Seq<char>, Seq<char>),
)
    requires
        forall|k: Seq<char>|
            #[trigger] value_for(e1, k) == if x.0 == k {
                Some(x.1)
            } else {
                value_for(e0, k)
            },
    ensures
        map_of(e1) == map_of(e0).insert(x.0, x.1),
{
    assert forall|k: Seq<char>| #[trigger] map_of(e1).contains_key(k) == map_of(e0).insert(x.0, x.1).contains_key(k) by {
        assert(value_for(e1, k) == value_for(e1, k));
    }
    assert forall|k: Seq<char>| map_of(e1).contains_key(k) implies #[trigger] map_of(e1)[k] == map_of(e0).insert(x.0, x.1)[k] by {
        assert(value_for(e1, k) == value_for(e1, k));
    }
    assert(map_of(e1) =~= map_of(e0).insert(x.0, x.1));
}

impl InjectFields {
    /// No fields.
    pub fn new() -> (r: InjectFields)
        ensures
            r@ == Map::<Seq<char>, Seq<char>>::empty(),
    {
        let r = InjectFields { entries: Vec::new() };
        proof {
            assert(r@ =~= Map::<Seq<char>, Seq<char>>::empty());
        }
        r
    }

    /// Sets the value of `key`, replacing any earlier value.
    pub fn insert(&mut self, key: String, value: String)
        ensures
            final(self)@ == old(self)@.insert(key@, value@),
    {
        proof {
            use_type_invariant(&*self);
        }
        let mut entries: Vec<(String, String)> = Vec::new();
        std::mem::swap(&mut entries, &mut self.entries);
        let ghost old_entries = entries@;
        let ghost e0 = entry_views(entries@);
        let mut i = entries.len();
        while i > 0 && !(entries[i - 1].0 == key)
            invariant
                i <= entries.len(),
                e0 == entry_views(entries@),
                forall|j: int| i <= j < e0.len() ==> e0[j].0 != key@,
            decreases i,
        {
            i = i - 1;
        }
        let ghost x = (key@, value@);
        if i > 0 {
            entries.set(i - 1, (key, value));
            proof {
                assert(entry_views(entries@) =~= e0.update(i - 1, x));
                assert forall|k: Seq<char>|
                    #[trigger] value_for(e0.update(i - 1, x), k) == (if x.0 == k {
                        Some(x.1)
                    } else {
                        value_for(e0, k)
                    }) by {
                    lemma_value_for_update(e0, i - 1, x, k);
                }
                lemma_map_of_insert(e0, e0.update(i - 1, x), x);
                assert forall|a: int, b: int|
                    0 <= a < b < entries.len() implies (#[trigger] entries@[a]).0@ != (
                    #[trigger] entries@[b]).0@ by {
                    assert(e0[a].0 == old_entries[a].0@);
                    assert(e0[b].0 == old_entries[b].0@);
                }
            }
        } else {
            entries.push((key, value));
            proof {
                assert(entry_views(entries@) =~= e0.push(x));
                assert forall|k: Seq<char>|
                    #[trigger] value_for(e0.push(x), k) == (if x.0 == k {
                        Some(x.1)
                    } else {
                        value_for(e0, k)
                    }) by {
                    lemma_value_for_push(e0, x, k);
                }
                lemma_map_of_insert(e0, e0.push(x), x);
                assert forall|a: int, b: int|
                    0 <= a < b < entries.len() implies (#[trigger] entries@[a]).0@ != (
                    #[trigger] entries@[b]).0@ by {
                    assert(e0[a].0 == old_entries[a].0@);
                    if b < old_entries.len() {
                        assert(e0[b].0 == old_entries[b].0@);
                    }
                }
            }
        }
        self.entries = entries;
    }

    /// The value of `key`, where it has one.
    pub fn get(&self, key: &str) -> (r: Option<&String>)
        ensures
            match r {
                Some(v) => self@.contains_key(key@) && self@[key@] == v@,
                None => !self@.contains_key(key@),
            },
    {
        let k = key.to_owned();
        let ghost e = entry_views(self.entries@);
        let mut i = self.entries.len();
        proof {
            assert(e.take(i as int) =~= e);
        }
        while i > 0
            invariant
                i <= self.entries.len(),
                e == entry_views(self.entries@),
                k@ == key@,
                value_for(e, key@) == value_for(e.take(i as int), key@),
            decreases i,
        {
            if self.entries[i - 1].0 == k {
                proof {
                    assert(e.take(i as int).last() == e[i - 1]);
                }
                return Some(&self.entries[i - 1].1);
            }
            proof {
                assert(e.take(i as int).drop_last() =~= e.take(i - 1));
            }
            i = i - 1;
        }
        proof {
            assert(e.take(0) =~= Seq::<(Seq<char>, Seq<char>)>::empty());
        }
        None
    }

    /// The entries, each key once.
    pub fn entries(&self) -> (r: &Vec<(String, String)>)
        ensures
            map_of(entry_views(r@)) == self@,
            forall|i: int, j: int| 0 <= i < j < r.len() ==> (#[trigger] r@[i]).0@ != (#[trigger] r@[j]).0@,
    {
        proof {
            use_type_invariant(self);
        }
        &self.entries
    }
}

/// Whether a line is a TOML comment: trimmed, it starts with `#`.
pub open spec fn is_comment(l: Seq<char>) -> bool {
    trim(l).len() > 0 && trim(l)[0] == '#'
}

/// The fields under `[inject]`: from the line that, trimmed, is `[inject]`
/// up to the next line that starts with `[`, each line with a `=` that is
/// not a comment sets the key before its first `=` (trimmed) to the value
/// after it (trimmed, then unquoted).
pub open spec fn inject_fold(
    lines: Seq<Seq<char>>,
    active: bool,
    fields: Map<Seq<char>, Seq<char>>,
) -> Map<Seq<char>, Seq<char>>
    decreases lines.len(),
{
    if lines.len() == 0 {
        fields
    } else {
        let l = lines[0];
        if trim(l) == "[inject]"@ {
            inject_fold(lines.drop_first(), true, fields)
        } else {
            let on = active && !(l.len() > 0 && l[0] == '[');
            let k = index_of(l, '=');
            let next = if on && !is_comment(l) && k < l.len() {
                fields.insert(trim(l.take(k)), trim_matches(trim(l.skip(k + 1)), '"'))
            } else {
                fields
            };
            inject_fold(lines.drop_first(), on, next)
        }
    }
}

/// Reads the fields to inject into every chapter from the text of
/// `fmf.toml`.
pub fn parse_inject_fields(content: &str) -> (r: InjectFields)
    ensures
        r@ == inject_fold(lines(content@), false, Map::empty()),
{
    let s = chars_of(content);
    let wins = line_windows(&s);
    let header = chars_of("[inject]");
    let ghost ls = lines(s@);
    let mut fields = InjectFields::new();
    let mut in_inject = false;
    proof {
        assert(ls.skip(0) =~= ls);
    }
    let mut i: usize = 0;
    while i < wins.len()
        invariant
            s@ == content@,
            header@ == "[inject]"@,
            windows_inside(s@, wins@),
            windows(s@, wins@) == ls,
            ls == lines(content@),
            i <= wins.len(),
            inject_fold(ls, false, Map::empty()) == inject_fold(
                ls.skip(i as int),
                in_inject,
                fields@,
            ),
        decreases wins.len() - i,
    {
        let (lo, hi) = wins[i];
        let ghost l = s@.subrange(lo as int, hi as int);
        proof {
            lemma_line_window(s@, wins@, i as int);
        }
        let (t0, t1) = trim_window(&s, lo, hi);
        if window_equals(&s, t0, t1, &header) {
            in_inject = true;
        } else {
            if hi > lo && s[lo] == '[' {
                in_inject = false;
            }
            proof {
                if hi > lo {
                    assert(l[0] == s@[lo as int]);
                }
            }
            let comment = t1 > t0 && s[t0] == '#';
            proof {
                if t1 > t0 {
                    assert(trim(l)[0] == s@[t0 as int]);
                }
            }
            if in_inject && !comment {
                let k = find_char(&s, lo, hi, '=');
                if k < hi {
                    let (ka, kb) = trim_window(&s, lo, k);
                    let (va, vb) = trim_window(&s, k + 1, hi);
                    let (va2, vb2) = trim_matches_window(&s, va, vb, '"');
                    proof {
                        assert(l.take(k - lo) =~= s@.subrange(lo as int, k as int));
                        assert(l.skip(k - lo + 1) =~= s@.subrange(k + 1, hi as int));
                    }
                    fields.insert(window_string(content, ka, kb), window_string(content, va2, vb2));
                }
            }
        }
        i = i + 1;
    }
    proof {
        assert(ls.skip(i as int) =~= Seq::<Seq<char>>::empty());
    }
    fields
}

proof fn lemma_language_default(ls: Seq<Seq<char>>)
    requires
        forall|i: int| 0 <= i < ls.len() ==> !"language"@.is_prefix_of(#[trigger] ls[i]),
    ensures
        language_in(ls) == "en"@,
    decreases ls.len(),
{
    if ls.len() > 0 {
        let rest = ls.drop_first();
        assert forall|i: int| 0 <= i < rest.len() implies !"language"@.is_prefix_of(#[trigger] rest[i]) by {
            assert(rest[i] == ls[i + 1]);
        }
        lemma_language_default(rest);
    }
}

/// A `book.toml` none of whose lines starts with `language` is in English.
pub proof fn law_language_defaults_to_en(content: Seq<char>)
    requires
        forall|i: int|
            0 <= i < lines(content).len() ==> !"language"@.is_prefix_of(#[trigger] lines(content)[i]),
    ensures
        language_in(lines(content)) == "en"@,
{
    lemma_language_default(lines(content));
}

proof fn lemma_kept_fields_nonempty(pieces: Seq<Seq<char>>)
    ensures
        forall|i: int| 0 <= i < kept_fields(pieces).len() ==> (#[trigger] kept_fields(pieces)[i]).len() > 0,
    decreases pieces.len(),
{
    if pieces.len() > 0 {
        lemma_kept_fields_nonempty(pieces.drop_first());
        let f = cleaned(pieces[0]);
        let head: Seq<Seq<char>> = if f.len() > 0 {
            seq![f]
        } else {
            seq![]
        };
        let rest = kept_fields(pieces.drop_first());
        assert forall|i: int| 0 <= i < kept_fields(pieces).len() implies (#[trigger] kept_fields(pieces)[i]).len() > 0 by {
            assert(kept_fields(pieces) == head + rest);
            if i >= head.len() {
                assert(kept_fields(pieces)[i] == rest[i - head.len()]);
            }
        }
    }
}

proof fn lemma_excluded_nonempty(ls: Seq<Seq<char>>)
    ensures
        forall|i: int| 0 <= i < excluded_in(ls).len() ==> (#[trigger] excluded_in(ls)[i]).len() > 0,
    decreases ls.len(),
{
    if ls.len() > 0 {
        if "exclude_fields"@.is_prefix_of(trim(ls[0])) && second_piece(ls[0], '=') is Some {
            let v = second_piece(ls[0], '=')->0;
            let inner = trim_end_matches(trim_start_matches(trim(v), '['), ']');
            lemma_kept_fields_nonempty(split(inner, ','));
            assert(excluded_in(ls) == field_list(v));
            assert(field_list(v) == kept_fields(split(inner, ',')));
        } else {
            lemma_excluded_nonempty(ls.drop_first());
            assert(excluded_in(ls) == excluded_in(ls.drop_first()));
        }
    }
}

/// No excluded field name is empty: pieces that clean to nothing, such as
/// the one after a trailing comma, are dropped.
pub proof fn law_excluded_fields_are_nonempty(content: Seq<char>)
    ensures
        forall|i: int|
            0 <= i < excluded_in(lines(content)).len() ==> (#[trigger] excluded_in(
                lines(content),
            )[i]).len() > 0,
{
    lemma_excluded_nonempty(lines(content));
}

proof fn lemma_no_exclude_line(ls: Seq<Seq<char>>)
    requires
        forall|i: int| 0 <= i < ls.len() ==> !"exclude_fields"@.is_prefix_of(trim(#[trigger] ls[i])),
    ensures
        excluded_in(ls).len() == 0,
    decreases ls.len(),
{
    if ls.len() > 0 {
        let rest = ls.drop_first();
        assert forall|i: int| 0 <= i < rest.len() implies !"exclude_fields"@.is_prefix_of(trim(#[trigger] rest[i])) by {
            assert(rest[i] == ls[i + 1]);
        }
        lemma_no_exclude_line(rest);
    }
}

/// An `fmf.toml` with no `exclude_fields` line excludes nothing.
pub proof fn law_no_exclude_line_excludes_nothing(content: Seq<char>)
    requires
        forall|i: int|
            0 <= i < lines(content).len() ==> !"exclude_fields"@.is_prefix_of(
                trim(#[trigger] lines(content)[i]),
            ),
    ensures
        excluded_in(lines(content)).len() == 0,
{
    lemma_no_exclude_line(lines(content));
}

proof fn lemma_inject_needs_header(ls: Seq<Seq<char>>, m: Map<Seq<char>, Seq<char>>)
    requires
        forall|i: int| 0 <= i < ls.len() ==> trim(#[trigger] ls[i]) != "[inject]"@,
    ensures
        inject_fold(ls, false, m) == m,
    decreases ls.len(),
{
    if ls.len() > 0 {
        let rest = ls.drop_first();
        assert forall|i: int| 0 <= i < rest.len() implies trim(#[trigger] rest[i]) != "[inject]"@ by {
            assert(rest[i] == ls[i + 1]);
        }
        assert(trim(ls[0]) != "[inject]"@);
        lemma_inject_needs_header(rest, m);
    }
}

/// Only lines under an `[inject]` header inject fields: an `fmf.toml`
/// without one injects nothing.
pub proof fn law_inject_needs_header(content: Seq<char>)
    requires
        forall|i: int| 0 <= i < lines(content).len() ==> trim(#[trigger] lines(content)[i]) != "[inject]"@,
    ensures
        inject_fold(lines(content), false, Map::empty()) == Map::<Seq<char>, Seq<char>>::empty(),
{
    lemma_inject_needs_header(lines(content), Map::empty());
}

/// A blank line never ends the `[inject]` section nor sets a field:
/// removing it from anywhere in the lines changes nothing, whatever state
/// the reading is in.
pub proof fn law_blank_line_changes_nothing(
    l1: Seq<Seq<char>>,
    l2: Seq<Seq<char>>,
    active: bool,
    fields: Map<Seq<char>, Seq<char>>,
)
    ensures
        inject_fold(l1 + seq![Seq::<char>::empty()] + l2, active, fields) == inject_fold(
            l1 + l2,
            active,
            fields,
        ),
    decreases l1.len(),
{
    let blank = Seq::<char>::empty();
    let x = l1 + seq![blank] + l2;
    if l1.len() == 0 {
        reveal_strlit("[inject]");
        assert(x =~= seq![blank] + l2);
        assert(l1 + l2 =~= l2);
        assert(x[0] == blank);
        assert(x.drop_first() =~= l2);
        assert(trim_start(blank) == blank);
        assert(trim_end(blank) == blank);
        assert(trim(blank) != "[inject]"@);
        assert(index_of(blank, '=') == 0);
    } else {
        let y = l1 + l2;
        let l = l1[0];
        assert(x[0] == l);
        assert(y[0] == l);
        assert(x.drop_first() =~= l1.drop_first() + seq![blank] + l2);
        assert(y.drop_first() =~= l1.drop_first() + l2);
        if trim(l) == "[inject]"@ {
            law_blank_line_changes_nothing(l1.drop_first(), l2, true, fields);
        } else {
            let on = active && !(l.len() > 0 && l[0] == '[');
            let k = index_of(l, '=');
            let next = if on && !is_comment(l) && k < l.len() {
                fields.insert(trim(l.take(k)), trim_matches(trim(l.skip(k + 1)), '"'))
            } else {
                fields
            };
            law_blank_line_changes_nothing(l1.drop_first(), l2, on, next);
        }
    }
}

/// A blank line in `fmf.toml` changes no injected field: the text with a
/// blank line put between two complete lines injects the same fields as the
/// text without it.
pub proof fn law_blank_line_in_fmf_changes_nothing(a: Seq<char>, b: Seq<char>)
    requires
        a.len() == 0 || a.last() == '\n',
    ensures
        inject_fold(lines(a + "\n"@ + b), false, Map::empty()) == inject_fold(
            lines(a + b),
            false,
            Map::empty(),
        ),
{
    reveal_strlit("\n");
    let nb = "\n"@ + b;
    assert(a + "\n"@ + b =~= a + nb);
    lemma_lines_concat(a, nb);
    lemma_lines_concat(a, b);
    lemma_index_of_at(nb, '\n', 0);
    assert(nb.take(0) =~= Seq::<char>::empty());
    assert(nb.skip(1) =~= b);
    assert(lines(nb) == seq![strip_cr(nb.take(0))] + lines(nb.skip(1)));
    assert(lines(nb) =~= seq![Seq::<char>::empty()] + lines(b));
    assert(lines(a) + lines(nb) =~= lines(a) + seq![Seq::<char>::empty()] + lines(b));
    law_blank_line_changes_nothing(lines(a), lines(b), false, Map::empty());
}

} // verus!
