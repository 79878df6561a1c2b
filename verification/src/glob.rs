//! Matching paths against glob patterns.

use vstd::prelude::*;
use crate::cutting::{split, split_text};
use crate::text::{same_text, text_of, texts_view, to_chars};

verus! {

/// Whether a text fits a pattern of one path segment: an asterisk stands for any row of
/// characters, a question mark for any one, and any other character for itself.
pub open spec fn segment_matches(glob: Seq<char>, text: Seq<char>) -> bool
    decreases glob.len() + text.len(),
{
    if glob.len() == 0 {
        text.len() == 0
    } else if glob[0] == '*' {
        segment_matches(glob.drop_first(), text) || (text.len() > 0 && segment_matches(
            glob,
            text.drop_first(),
        ))
    } else {
        text.len() > 0 && (glob[0] == '?' || glob[0] == text[0]) && segment_matches(
            glob.drop_first(),
            text.drop_first(),
        )
    }
}

/// The scan that goes forward through pattern and text and, where they part, takes one character
/// more into the last asterisk. An asterisk in the text meets an asterisk of the pattern as a
/// character like any other.
pub open spec fn scan(
    glob: Seq<char>,
    text: Seq<char>,
    gi: int,
    ti: int,
    star: Option<int>,
    star_text: int,
) -> bool
    decreases text.len() - star_text, (text.len() - ti) + (glob.len() - gi),
    when 0 <= gi <= glob.len() && 0 <= star_text <= ti <= text.len() && (star matches Some(s)
        ==> 0 <= s < glob.len())
{
    if ti < text.len() {
        if gi < glob.len() && (glob[gi] == '?' || glob[gi] == text[ti]) {
            scan(glob, text, gi + 1, ti + 1, star, star_text)
        } else if gi < glob.len() && glob[gi] == '*' {
            scan(glob, text, gi + 1, ti, Some(gi), ti)
        } else {
            match star {
                Some(s) => scan(glob, text, s + 1, star_text + 1, star, star_text + 1),
                None => false,
            }
        }
    } else {
        only_stars(glob, gi)
    }
}

pub open spec fn only_stars(glob: Seq<char>, from: int) -> bool {
    forall|i: int| from <= i < glob.len() ==> #[trigger] glob[i] == '*'
}

/// Whether a text fits a pattern of one path segment, as the scan finds it.
pub open spec fn segment_scan(glob: Seq<char>, text: Seq<char>) -> bool {
    scan(glob, text, 0, 0, None, 0)
}

spec fn rest_matches(glob: Seq<char>, text: Seq<char>, gi: int, ti: int) -> bool {
    segment_matches(glob.skip(gi), text.skip(ti))
}

proof fn lemma_rest_step(glob: Seq<char>, text: Seq<char>, gi: int, ti: int)
    requires
        0 <= gi <= glob.len(),
        0 <= ti <= text.len(),
    ensures
        gi == glob.len() ==> rest_matches(glob, text, gi, ti) == (ti == text.len()),
        gi < glob.len() && glob[gi] == '*' && ti < text.len() ==> rest_matches(glob, text, gi, ti)
            == (rest_matches(glob, text, gi + 1, ti) || rest_matches(glob, text, gi, ti + 1)),
        gi < glob.len() && glob[gi] == '*' && ti == text.len() ==> rest_matches(
            glob,
            text,
            gi,
            ti,
        ) == rest_matches(glob, text, gi + 1, ti),
        gi < glob.len() && glob[gi] != '*' && ti < text.len() ==> rest_matches(glob, text, gi, ti)
            == ((glob[gi] == '?' || glob[gi] == text[ti]) && rest_matches(
            glob,
            text,
            gi + 1,
            ti + 1,
        )),
        gi < glob.len() && glob[gi] != '*' && ti == text.len() ==> !rest_matches(
            glob,
            text,
            gi,
            ti,
        ),
{
    let g = glob.skip(gi);
    let t = text.skip(ti);
    if gi < glob.len() {
        assert(g.drop_first() =~= glob.skip(gi + 1));
    }
    if ti < text.len() {
        assert(t.drop_first() =~= text.skip(ti + 1));
    }
}

/// A pattern without asterisks takes one character of the text for each of its own.
proof fn lemma_plain_run(glob: Seq<char>, text: Seq<char>, from: int, to: int, ti: int)
    requires
        0 <= from <= to <= glob.len(),
        0 <= ti <= text.len(),
        forall|i: int| from <= i < to ==> #[trigger] glob[i] != '*',
        rest_matches(glob, text, from, ti),
    ensures
        ti + (to - from) <= text.len(),
        rest_matches(glob, text, to, ti + (to - from)),
    decreases to - from,
{
    if from < to {
        lemma_rest_step(glob, text, from, ti);
        lemma_plain_run(glob, text, from + 1, to, ti + 1);
    }
}

/// An asterisk that fits from some place on fits from every earlier place too.
proof fn lemma_star_absorbs(glob: Seq<char>, text: Seq<char>, gi: int, ti: int, later: int)
    requires
        0 <= gi < glob.len(),
        glob[gi] == '*',
        0 <= ti <= later <= text.len(),
        rest_matches(glob, text, gi, later),
    ensures
        rest_matches(glob, text, gi, ti),
    decreases later - ti,
{
    if ti < later {
        lemma_rest_step(glob, text, gi, later - 1);
        lemma_star_absorbs(glob, text, gi, ti, later - 1);
    }
}

/// Where an asterisk fits from some place on, what stands behind it fits somewhere from there on.
proof fn lemma_star_witness(glob: Seq<char>, text: Seq<char>, gi: int, ti: int) -> (at: int)
    requires
        0 <= gi < glob.len(),
        glob[gi] == '*',
        0 <= ti <= text.len(),
        rest_matches(glob, text, gi, ti),
    ensures
        ti <= at <= text.len(),
        rest_matches(glob, text, gi + 1, at),
    decreases text.len() - ti,
{
    lemma_rest_step(glob, text, gi, ti);
    if rest_matches(glob, text, gi + 1, ti) {
        ti
    } else {
        lemma_star_witness(glob, text, gi, ti + 1)
    }
}

proof fn lemma_only_stars(glob: Seq<char>, text: Seq<char>, gi: int)
    requires
        0 <= gi <= glob.len(),
    ensures
        rest_matches(glob, text, gi, text.len() as int) == only_stars(glob, gi),
    decreases glob.len() - gi,
{
    lemma_rest_step(glob, text, gi, text.len() as int);
    if gi < glob.len() {
        lemma_only_stars(glob, text, gi + 1);
        if only_stars(glob, gi + 1) && glob[gi] == '*' {
            assert(only_stars(glob, gi));
        }
    }
}

/// What the scan still can find, against what fits from here on or from one character later in
/// the last asterisk.
proof fn lemma_scan(
    glob: Seq<char>,
    text: Seq<char>,
    gi: int,
    ti: int,
    star: Option<int>,
    star_text: int,
)
    requires
        0 <= gi <= glob.len(),
        0 <= star_text <= ti <= text.len(),
        forall|i: int| 0 <= i < text.len() ==> #[trigger] text[i] != '*',
        match star {
            Some(s) => 0 <= s < gi && glob[s] == '*' && ti - star_text == gi - s - 1 && forall|
                i: int,
            |
                s < i < gi ==> #[trigger] glob[i] != '*',
            None => true,
        },
    ensures
        scan(glob, text, gi, ti, star, star_text) == (rest_matches(glob, text, gi, ti) || (
        star matches Some(s) && star_text < text.len() && rest_matches(
            glob,
            text,
            s,
            star_text + 1,
        ))),
    decreases text.len() - star_text, (text.len() - ti) + (glob.len() - gi),
{
    lemma_rest_step(glob, text, gi, ti);
    if ti < text.len() {
        if gi < glob.len() && (glob[gi] == '?' || glob[gi] == text[ti]) {
            assert(text[ti] != '*');
            lemma_scan(glob, text, gi + 1, ti + 1, star, star_text);
        } else if gi < glob.len() && glob[gi] == '*' {
            lemma_scan(glob, text, gi + 1, ti, Some(gi), ti);
            match star {
                Some(s) => {
                    if rest_matches(glob, text, s, star_text + 1) {
                        let at = lemma_star_witness(glob, text, s, star_text + 1);
                        lemma_plain_run(glob, text, s + 1, gi, at);
                        lemma_star_absorbs(glob, text, gi, ti, at + (gi - s - 1));
                    }
                },
                None => {},
            }
        } else {
            match star {
                Some(s) => {
                    lemma_rest_step(glob, text, s, star_text + 1);
                    lemma_scan(glob, text, s + 1, star_text + 1, star, star_text + 1);
                },
                None => {},
            }
        }
    } else {
        lemma_only_stars(glob, text, gi);
        match star {
            Some(s) => {
                if star_text < text.len() && rest_matches(glob, text, s, star_text + 1) {
                    let at = lemma_star_witness(glob, text, s, star_text + 1);
                    lemma_plain_run(glob, text, s + 1, gi, at);
                }
            },
            None => {},
        }
    }
}

/// On every text without an asterisk the scan finds what the pattern says.
pub proof fn law_scan_finds_matches(glob: Seq<char>, text: Seq<char>)
    requires
        forall|i: int| 0 <= i < text.len() ==> #[trigger] text[i] != '*',
    ensures
        segment_scan(glob, text) == segment_matches(glob, text),
{
    lemma_scan(glob, text, 0, 0, None, 0);
    assert(glob.skip(0) =~= glob);
    assert(text.skip(0) =~= text);
}

/// Whether a text fits a pattern of one path segment.
pub fn glob_segment_match(glob: &str, text: &str) -> (r: bool)
    ensures
        r == segment_scan(glob@, text@),
{
    let pattern: Vec<char> = to_chars(glob);
    let chars: Vec<char> = to_chars(text);
    let mut gi: usize = 0;
    let mut ti: usize = 0;
    let mut star: Option<usize> = None;
    let mut star_text: usize = 0;
    while ti < chars.len()
        invariant
            pattern@ == glob@,
            chars@ == text@,
            gi <= glob@.len(),
            star_text <= ti <= text@.len(),
            star matches Some(s) ==> s < glob@.len(),
            segment_scan(glob@, text@) == scan(
                glob@,
                text@,
                gi as int,
                ti as int,
                match star {
                    Some(s) => Some(s as int),
                    None => None,
                },
                star_text as int,
            ),
        decreases text@.len() - star_text, (text@.len() - ti) + (glob@.len() - gi),
    {
        if gi < pattern.len() && (pattern[gi] == '?' || pattern[gi] == chars[ti]) {
            gi = gi + 1;
            ti = ti + 1;
        } else if gi < pattern.len() && pattern[gi] == '*' {
            star = Some(gi);
            gi = gi + 1;
            star_text = ti;
        } else {
            match star {
                Some(s) => {
                    gi = s + 1;
                    star_text = star_text + 1;
                    ti = star_text;
                },
                None => {
                    return false;
                },
            }
        }
    }
    let ghost rest = gi as int;
    while gi < pattern.len() && pattern[gi] == '*'
        invariant
            pattern@ == glob@,
            rest <= gi <= glob@.len(),
            forall|i: int| rest <= i < gi ==> #[trigger] glob@[i] == '*',
        decreases glob@.len() - gi,
    {
        gi = gi + 1;
    }
    assert(gi < glob@.len() ==> glob@[gi as int] != '*');
    gi == pattern.len()
}

/// Whether the segments of a path fit the segments of a pattern: two asterisks stand for any row
/// of segments.
pub open spec fn path_matches(glob: Seq<Seq<char>>, path: Seq<Seq<char>>) -> bool
    decreases glob.len() + path.len(),
{
    if glob.len() == 0 {
        path.len() == 0
    } else if glob[0] == "**"@ {
        path_matches(glob.drop_first(), path) || (path.len() > 0 && path_matches(
            glob,
            path.drop_first(),
        ))
    } else {
        path.len() > 0 && segment_scan(glob[0], path[0]) && path_matches(
            glob.drop_first(),
            path.drop_first(),
        )
    }
}

fn segments_match_from(glob: &Vec<String>, gi: usize, path: &Vec<String>, pi: usize) -> (r: bool)
    requires
        gi <= glob@.len(),
        pi <= path@.len(),
    ensures
        r == path_matches(
            texts_view(glob@).skip(gi as int),
            texts_view(path@).skip(pi as int),
        ),
    decreases (glob@.len() - gi) + (path@.len() - pi),
{
    let ghost g = texts_view(glob@).skip(gi as int);
    let ghost p = texts_view(path@).skip(pi as int);
    if gi == glob.len() {
        return pi == path.len();
    }
    assert(g[0] == glob@[gi as int]@);
    assert(g.drop_first() =~= texts_view(glob@).skip(gi + 1));
    if pi < path.len() {
        assert(p[0] == path@[pi as int]@);
        assert(p.drop_first() =~= texts_view(path@).skip(pi + 1));
    }
    if same_text(glob[gi].as_str(), "**") {
        return segments_match_from(glob, gi + 1, path, pi) || (pi < path.len()
            && segments_match_from(glob, gi, path, pi + 1));
    }
    pi < path.len() && glob_segment_match(glob[gi].as_str(), path[pi].as_str())
        && segments_match_from(glob, gi + 1, path, pi + 1)
}

/// Whether the segments of a path fit the segments of a pattern.
pub fn glob_segments_match(glob: &Vec<String>, path: &Vec<String>) -> (r: bool)
    ensures
        r == path_matches(texts_view(glob@), texts_view(path@)),
{
    assert(texts_view(glob@).skip(0) =~= texts_view(glob@));
    assert(texts_view(path@).skip(0) =~= texts_view(path@));
    segments_match_from(glob, 0, path, 0)
}

/// A text with backslashes turned into slashes.
pub open spec fn normalized(s: Seq<char>) -> Seq<char> {
    Seq::new(
        s.len(),
        |i: int|
            if s[i] == '\\' {
                '/'
            } else {
                s[i]
            },
    )
}

pub fn normalize_separators(s: &str) -> (r: String)
    ensures
        r@ == normalized(s@),
{
    let chars: Vec<char> = to_chars(s);
    let mut out: String = String::new();
    let mut i: usize = 0;
    while i < chars.len()
        invariant
            chars@ == s@,
            i <= s@.len(),
            out@ == normalized(s@).take(i as int),
        decreases s@.len() - i,
    {
        out.push(
            if chars[i] == '\\' {
                '/'
            } else {
                chars[i]
            },
        );
        assert(normalized(s@).take(i + 1) =~= normalized(s@).take(i as int).push(
            normalized(s@)[i as int],
        ));
        i = i + 1;
    }
    assert(normalized(s@).take(s@.len() as int) =~= normalized(s@));
    out
}

/// Whether a path fits a pattern.
pub open spec fn path_fits(glob: Seq<char>, path: Seq<char>) -> bool {
    path_matches(split(normalized(glob), '/'), split(normalized(path), '/'))
}

/// Whether a path fits a pattern.
pub fn glob_matches_path(glob: &str, path: &str) -> (r: bool)
    ensures
        r == path_fits(glob@, path@),
{
    let pattern: Vec<String> = split_text(normalize_separators(glob).as_str(), '/');
    let segments: Vec<String> = split_text(normalize_separators(path).as_str(), '/');
    glob_segments_match(&pattern, &segments)
}

pub open spec fn is_magic(c: char) -> bool {
    c == '*' || c == '?' || c == '['
}

/// Where the first character with a special meaning stands, or the length.
pub open spec fn magic_at(s: Seq<char>) -> nat
    decreases s.len(),
{
    if s.len() == 0 || is_magic(s[0]) {
        0
    } else {
        1 + magic_at(s.drop_first())
    }
}

/// The position behind the last slash of `s`, or zero.
pub open spec fn behind_last_slash(s: Seq<char>) -> nat
    decreases s.len(),
{
    if s.len() == 0 || s.last() == '/' {
        s.len()
    } else {
        behind_last_slash(s.drop_last())
    }
}

/// The directory that stands in front of every special character of a pattern: the root, a path
/// without the slash at its end, or the current directory.
pub open spec fn literal_prefix(glob: Seq<char>) -> Seq<char> {
    let prefix = glob.take(magic_at(glob) as int);
    let end = behind_last_slash(prefix);
    if end == 0 {
        "."@
    } else if end == 1 {
        "/"@
    } else {
        prefix.take(end - 1)
    }
}

fn find_magic(chars: &Vec<char>) -> (r: usize)
    ensures
        r == magic_at(chars@),
        r <= chars@.len(),
        r < chars@.len() ==> is_magic(chars@[r as int]),
{
    let mut i: usize = 0;
    assert(chars@.skip(0) =~= chars@);
    while i < chars.len() && chars[i] != '*' && chars[i] != '?' && chars[i] != '['
        invariant
            i <= chars@.len(),
            magic_at(chars@) == i + magic_at(chars@.skip(i as int)),
        decreases chars@.len() - i,
    {
        assert(chars@.skip(i as int).drop_first() =~= chars@.skip(i + 1));
        i = i + 1;
    }
    i
}

pub fn literal_prefix_before_magic(glob: &str) -> (r: String)
    ensures
        r@ == literal_prefix(glob@),
{
    let chars: Vec<char> = to_chars(glob);
    let at: usize = find_magic(&chars);
    let ghost prefix = glob@.take(at as int);
    let mut end: usize = at;
    assert(prefix.take(at as int) =~= prefix);
    while end > 0 && chars[end - 1] != '/'
        invariant
            chars@ == glob@,
            at <= glob@.len(),
            end <= at,
            prefix == glob@.take(at as int),
            behind_last_slash(prefix) == behind_last_slash(prefix.take(end as int)),
        decreases end,
    {
        assert(prefix.take(end as int).last() == glob@[end - 1]);
        assert(prefix.take(end as int).drop_last() =~= prefix.take(end - 1));
        end = end - 1;
    }
    if end == 0 {
        crate::text::copy_text(".")
    } else {
        assert(prefix.take(end as int).last() == '/');
        if end == 1 {
            crate::text::copy_text("/")
        } else {
            assert(prefix.take(end - 1) =~= glob@.subrange(0, end - 1));
            text_of(&chars, 0, end - 1)
        }
    }
}

/// Whether a pattern holds a special character.
pub fn glob_has_magic(glob: &str) -> (r: bool)
    ensures
        r == (magic_at(glob@) < glob@.len()),
{
    let chars: Vec<char> = to_chars(glob);
    find_magic(&chars) < chars.len()
}

/// Whether one segment of a pattern is two asterisks.
pub fn glob_has_recursive_wildcard(glob: &str) -> (r: bool)
    ensures
        r == split(glob@, '/').contains("**"@),
{
    let segments: Vec<String> = split_text(glob, '/');
    crate::text::list_holds(&segments, "**")
}

} // verus!
