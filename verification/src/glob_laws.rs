//! Laws of patterns: what fits a pattern, said of its characters and segments.

use vstd::prelude::*;
use crate::cutting::{law_join_split, lemma_split, split};
use crate::glob::{
    law_scan_finds_matches, literal_prefix, magic_at, normalized, path_fits, path_matches, scan,
    segment_matches, segment_scan,
};

verus! {

// One segment.

/// Whether each character of a text is the one that stands at its place in a pattern, where a question
/// mark stands for any.
pub open spec fn same_but_marks(glob: Seq<char>, text: Seq<char>) -> bool {
    glob.len() == text.len() && forall|i: int|
        0 <= i < glob.len() ==> #[trigger] glob[i] == '?' || glob[i] == text[i]
}

proof fn lemma_scan_without_star(glob: Seq<char>, text: Seq<char>, at: int)
    requires
        forall|i: int| 0 <= i < glob.len() ==> #[trigger] glob[i] != '*',
        0 <= at <= glob.len(),
        at <= text.len(),
    ensures
        scan(glob, text, at, at, None, 0) <==> glob.len() == text.len() && forall|i: int|
            at <= i < glob.len() ==> #[trigger] glob[i] == '?' || glob[i] == text[i],
    decreases text.len() - at,
{
    if at < glob.len() {
        assert(glob[at] != '*');
    }
    if at < text.len() && at < glob.len() {
        if glob[at] == '?' || glob[at] == text[at] {
            lemma_scan_without_star(glob, text, at + 1);
        }
    }
}

/// A pattern without asterisks fits the texts of its length that have its characters, where a
/// question mark stands for any one, and no others.
pub proof fn law_a_segment_without_asterisks(glob: Seq<char>, text: Seq<char>)
    requires
        forall|i: int| 0 <= i < glob.len() ==> #[trigger] glob[i] != '*',
    ensures
        segment_scan(glob, text) <==> same_but_marks(glob, text),
{
    lemma_scan_without_star(glob, text, 0);
}

/// Whether a text fits a pattern in front of some place and another behind some place.
pub open spec fn fits_around(
    a: Seq<char>,
    b: Seq<char>,
    text: Seq<char>,
    from: int,
    to: int,
) -> bool {
    0 <= from <= to <= text.len() && segment_scan(a, text.take(from)) && segment_scan(
        b,
        text.skip(to),
    )
}

proof fn lemma_matches_two(a: Seq<char>, b: Seq<char>, text: Seq<char>)
    ensures
        segment_matches(a + b, text) <==> exists|i: int|
            0 <= i <= text.len() && #[trigger] segment_matches(a, text.take(i)) && segment_matches(
                b,
                text.skip(i),
            ),
    decreases a.len() + text.len(),
{
    if a.len() == 0 {
        assert(a + b =~= b);
        assert(text.skip(0) =~= text);
        assert(segment_matches(a, text.take(0)));
        assert forall|i: int|
            0 <= i <= text.len() && #[trigger] segment_matches(a, text.take(i)) implies i == 0 by {}
    } else {
        assert((a + b).drop_first() =~= a.drop_first() + b);
        assert((a + b)[0] == a[0]);
        let rest = a.drop_first();
        if a[0] == '*' {
            lemma_matches_two(rest, b, text);
            if text.len() > 0 {
                lemma_matches_two(a, b, text.drop_first());
            }
            if segment_matches(a + b, text) {
                if segment_matches(rest + b, text) {
                    let i = choose|i: int|
                        0 <= i <= text.len() && #[trigger] segment_matches(rest, text.take(i))
                            && segment_matches(b, text.skip(i));
                    assert(segment_matches(a, text.take(i)));
                } else {
                    let t = text.drop_first();
                    let i = choose|i: int|
                        0 <= i <= t.len() && #[trigger] segment_matches(a, t.take(i))
                            && segment_matches(b, t.skip(i));
                    assert(text.take(i + 1).drop_first() =~= t.take(i));
                    assert(text.skip(i + 1) =~= t.skip(i));
                    assert(segment_matches(a, text.take(i + 1)));
                }
            }
            if exists|i: int|
                0 <= i <= text.len() && #[trigger] segment_matches(a, text.take(i))
                    && segment_matches(b, text.skip(i)) {
                let i = choose|i: int|
                    0 <= i <= text.len() && #[trigger] segment_matches(a, text.take(i))
                        && segment_matches(b, text.skip(i));
                if segment_matches(rest, text.take(i)) {
                } else {
                    let t = text.drop_first();
                    assert(i > 0);
                    assert(text.take(i).drop_first() =~= t.take(i - 1));
                    assert(text.skip(i) =~= t.skip(i - 1));
                    assert(segment_matches(a, t.take(i - 1)));
                }
            }
        } else if text.len() > 0 {
            let t = text.drop_first();
            lemma_matches_two(rest, b, t);
            if segment_matches(a + b, text) {
                let i = choose|i: int|
                    0 <= i <= t.len() && #[trigger] segment_matches(rest, t.take(i))
                        && segment_matches(b, t.skip(i));
                assert(text.take(i + 1).drop_first() =~= t.take(i));
                assert(text.skip(i + 1) =~= t.skip(i));
                assert(segment_matches(a, text.take(i + 1)));
            }
            if exists|i: int|
                0 <= i <= text.len() && #[trigger] segment_matches(a, text.take(i))
                    && segment_matches(b, text.skip(i)) {
                let i = choose|i: int|
                    0 <= i <= text.len() && #[trigger] segment_matches(a, text.take(i))
                        && segment_matches(b, text.skip(i));
                assert(i > 0);
                assert(text.take(i).drop_first() =~= t.take(i - 1));
                assert(text.skip(i) =~= t.skip(i - 1));
                assert(text.take(i)[0] == text[0]);
                assert(segment_matches(rest, t.take(i - 1)));
            }
        } else {
            assert forall|i: int|
                0 <= i <= text.len() && #[trigger] segment_matches(a, text.take(i)) implies false by {
                assert(text.take(i).len() == 0);
            }
        }
    }
}

proof fn lemma_matches_star(b: Seq<char>, text: Seq<char>)
    ensures
        segment_matches(seq!['*'] + b, text) <==> exists|j: int|
            0 <= j <= text.len() && #[trigger] segment_matches(b, text.skip(j)),
    decreases text.len(),
{
    let glob = seq!['*'] + b;
    assert(glob.drop_first() =~= b);
    assert(text.skip(0) =~= text);
    assert(segment_matches(b, text) ==> segment_matches(b, text.skip(0)));
    if text.len() > 0 {
        let t = text.drop_first();
        lemma_matches_star(b, t);
        if segment_matches(glob, t) {
            let j = choose|j: int| 0 <= j <= t.len() && #[trigger] segment_matches(b, t.skip(j));
            assert(text.skip(j + 1) =~= t.skip(j));
        }
        if exists|j: int| 0 <= j <= text.len() && #[trigger] segment_matches(b, text.skip(j)) {
            let j = choose|j: int|
                0 <= j <= text.len() && #[trigger] segment_matches(b, text.skip(j));
            if j > 0 {
                assert(text.skip(j) =~= t.skip(j - 1));
                assert(segment_matches(b, t.skip(j - 1)));
            } else {
                assert(segment_matches(b, text));
            }
        }
    } else {
        assert forall|j: int|
            0 <= j <= text.len() && #[trigger] segment_matches(b, text.skip(j)) implies
            segment_matches(glob, text) by {
            assert(text.skip(j) =~= text);
        }
    }
}

proof fn lemma_no_star_in_part(text: Seq<char>, i: int)
    requires
        forall|k: int| 0 <= k < text.len() ==> #[trigger] text[k] != '*',
        0 <= i <= text.len(),
    ensures
        forall|k: int| 0 <= k < text.take(i).len() ==> #[trigger] text.take(i)[k] != '*',
        forall|k: int| 0 <= k < text.skip(i).len() ==> #[trigger] text.skip(i)[k] != '*',
{
}

/// An asterisk stands for any row of characters: a pattern with an asterisk in it fits a text just
/// where what is in front of the asterisk fits a front part, and what is behind it fits a back part
/// that does not reach into the front part.
pub proof fn law_an_asterisk_stands_for_anything(a: Seq<char>, b: Seq<char>, text: Seq<char>)
    requires
        forall|i: int| 0 <= i < text.len() ==> #[trigger] text[i] != '*',
    ensures
        segment_scan(a + seq!['*'] + b, text) <==> exists|from: int, to: int| #[trigger]
            fits_around(a, b, text, from, to),
{
    let glob = a + seq!['*'] + b;
    law_scan_finds_matches(glob, text);
    let rest = seq!['*'] + b;
    assert(glob =~= a + rest);
    lemma_matches_two(a, rest, text);
    if segment_matches(glob, text) {
        let i = choose|i: int|
            0 <= i <= text.len() && #[trigger] segment_matches(a, text.take(i)) && segment_matches(
                rest,
                text.skip(i),
            );
        let t = text.skip(i);
        lemma_matches_star(b, t);
        let j = choose|j: int| 0 <= j <= t.len() && #[trigger] segment_matches(b, t.skip(j));
        assert(t.skip(j) =~= text.skip(i + j));
        lemma_no_star_in_part(text, i);
        lemma_no_star_in_part(text, i + j);
        law_scan_finds_matches(a, text.take(i));
        law_scan_finds_matches(b, text.skip(i + j));
        assert(fits_around(a, b, text, i, i + j));
    }
    if exists|from: int, to: int| #[trigger] fits_around(a, b, text, from, to) {
        let (i, j) = choose|i: int, j: int| #[trigger] fits_around(a, b, text, i, j);
        let t = text.skip(i);
        lemma_no_star_in_part(text, i);
        lemma_no_star_in_part(text, j);
        law_scan_finds_matches(a, text.take(i));
        law_scan_finds_matches(b, text.skip(j));
        assert(t.skip(j - i) =~= text.skip(j));
        lemma_matches_star(b, t);
        assert(segment_matches(b, t.skip(j - i)));
        assert(segment_matches(rest, t));
        assert(segment_matches(a, text.take(i)));
    }
}

// Paths.

/// A pattern without a segment of two asterisks fits a path just where both have the same number of
/// segments, and each segment of the path fits the segment of the pattern at its place.
pub proof fn law_a_pattern_takes_as_many_segments_as_it_has(
    glob: Seq<Seq<char>>,
    path: Seq<Seq<char>>,
)
    requires
        forall|i: int| 0 <= i < glob.len() ==> #[trigger] glob[i] != "**"@,
    ensures
        path_matches(glob, path) <==> glob.len() == path.len() && forall|i: int|
            0 <= i < glob.len() ==> segment_scan(#[trigger] glob[i], path[i]),
    decreases glob.len(),
{
    if glob.len() > 0 && path.len() > 0 {
        let g = glob.drop_first();
        let p = path.drop_first();
        assert(glob[0] != "**"@);
        assert forall|i: int| 0 <= i < g.len() implies #[trigger] g[i] != "**"@ by {
            assert(g[i] == glob[i + 1]);
        }
        law_a_pattern_takes_as_many_segments_as_it_has(g, p);
        if path_matches(glob, path) {
            assert forall|i: int| 0 <= i < glob.len() implies segment_scan(
                #[trigger] glob[i],
                path[i],
            ) by {
                if i > 0 {
                    assert(segment_scan(g[i - 1], p[i - 1]));
                }
            }
        }
        if glob.len() == path.len() && forall|i: int|
            0 <= i < glob.len() ==> segment_scan(#[trigger] glob[i], path[i]) {
            assert forall|i: int| 0 <= i < g.len() implies segment_scan(#[trigger] g[i], p[i]) by {
                assert(segment_scan(glob[i + 1], path[i + 1]));
            }
            assert(segment_scan(glob[0], path[0]));
        }
    } else if glob.len() > 0 {
        assert(glob[0] != "**"@);
    }
}

/// Whether a path fits a pattern in front of some place and another behind some place.
pub open spec fn path_fits_around(
    a: Seq<Seq<char>>,
    b: Seq<Seq<char>>,
    path: Seq<Seq<char>>,
    from: int,
    to: int,
) -> bool {
    0 <= from <= to <= path.len() && path_matches(a, path.take(from)) && path_matches(
        b,
        path.skip(to),
    )
}

proof fn lemma_path_two(a: Seq<Seq<char>>, b: Seq<Seq<char>>, path: Seq<Seq<char>>)
    ensures
        path_matches(a + b, path) <==> exists|i: int|
            0 <= i <= path.len() && #[trigger] path_matches(a, path.take(i)) && path_matches(
                b,
                path.skip(i),
            ),
    decreases a.len() + path.len(),
{
    if a.len() == 0 {
        assert(a + b =~= b);
        assert(path.skip(0) =~= path);
        assert(path_matches(a, path.take(0)));
        assert forall|i: int|
            0 <= i <= path.len() && #[trigger] path_matches(a, path.take(i)) implies i == 0 by {}
    } else {
        assert((a + b).drop_first() =~= a.drop_first() + b);
        assert((a + b)[0] == a[0]);
        let rest = a.drop_first();
        if a[0] == "**"@ {
            lemma_path_two(rest, b, path);
            if path.len() > 0 {
                lemma_path_two(a, b, path.drop_first());
            }
            if path_matches(a + b, path) {
                if path_matches(rest + b, path) {
                    let i = choose|i: int|
                        0 <= i <= path.len() && #[trigger] path_matches(rest, path.take(i))
                            && path_matches(b, path.skip(i));
                    assert(path_matches(a, path.take(i)));
                } else {
                    let t = path.drop_first();
                    let i = choose|i: int|
                        0 <= i <= t.len() && #[trigger] path_matches(a, t.take(i))
                            && path_matches(b, t.skip(i));
                    assert(path.take(i + 1).drop_first() =~= t.take(i));
                    assert(path.skip(i + 1) =~= t.skip(i));
                    assert(path_matches(a, path.take(i + 1)));
                }
            }
            if exists|i: int|
                0 <= i <= path.len() && #[trigger] path_matches(a, path.take(i)) && path_matches(
                    b,
                    path.skip(i),
                ) {
                let i = choose|i: int|
                    0 <= i <= path.len() && #[trigger] path_matches(a, path.take(i))
                        && path_matches(b, path.skip(i));
                if path_matches(rest, path.take(i)) {
                } else {
                    let t = path.drop_first();
                    assert(i > 0);
                    assert(path.take(i).drop_first() =~= t.take(i - 1));
                    assert(path.skip(i) =~= t.skip(i - 1));
                    assert(path_matches(a, t.take(i - 1)));
                }
            }
        } else if path.len() > 0 {
            let t = path.drop_first();
            lemma_path_two(rest, b, t);
            if path_matches(a + b, path) {
                let i = choose|i: int|
                    0 <= i <= t.len() && #[trigger] path_matches(rest, t.take(i)) && path_matches(
                        b,
                        t.skip(i),
                    );
                assert(path.take(i + 1).drop_first() =~= t.take(i));
                assert(path.skip(i + 1) =~= t.skip(i));
                assert(path_matches(a, path.take(i + 1)));
            }
            if exists|i: int|
                0 <= i <= path.len() && #[trigger] path_matches(a, path.take(i)) && path_matches(
                    b,
                    path.skip(i),
                ) {
                let i = choose|i: int|
                    0 <= i <= path.len() && #[trigger] path_matches(a, path.take(i))
                        && path_matches(b, path.skip(i));
                assert(i > 0);
                assert(path.take(i).drop_first() =~= t.take(i - 1));
                assert(path.skip(i) =~= t.skip(i - 1));
                assert(path.take(i)[0] == path[0]);
                assert(path_matches(rest, t.take(i - 1)));
            }
        } else {
            assert forall|i: int|
                0 <= i <= path.len() && #[trigger] path_matches(a, path.take(i)) implies false by {
                assert(path.take(i).len() == 0);
            }
        }
    }
}

proof fn lemma_path_any(b: Seq<Seq<char>>, path: Seq<Seq<char>>)
    ensures
        path_matches(seq!["**"@] + b, path) <==> exists|j: int|
            0 <= j <= path.len() && #[trigger] path_matches(b, path.skip(j)),
    decreases path.len(),
{
    let glob = seq!["**"@] + b;
    assert(glob.drop_first() =~= b);
    assert(path.skip(0) =~= path);
    assert(path_matches(b, path) ==> path_matches(b, path.skip(0)));
    if path.len() > 0 {
        let t = path.drop_first();
        lemma_path_any(b, t);
        if path_matches(glob, t) {
            let j = choose|j: int| 0 <= j <= t.len() && #[trigger] path_matches(b, t.skip(j));
            assert(path.skip(j + 1) =~= t.skip(j));
        }
        if exists|j: int| 0 <= j <= path.len() && #[trigger] path_matches(b, path.skip(j)) {
            let j = choose|j: int| 0 <= j <= path.len() && #[trigger] path_matches(b, path.skip(j));
            if j > 0 {
                assert(path.skip(j) =~= t.skip(j - 1));
                assert(path_matches(b, t.skip(j - 1)));
            } else {
                assert(path_matches(b, path));
            }
        }
    } else {
        assert forall|j: int|
            0 <= j <= path.len() && #[trigger] path_matches(b, path.skip(j)) implies path_matches(
            glob,
            path,
        ) by {
            assert(path.skip(j) =~= path);
        }
    }
}

/// Two asterisks stand for any row of segments: a pattern with such a segment in it fits a path just
/// where what is in front of it fits a front part, and what is behind it fits a back part that does
/// not reach into the front part.
pub proof fn law_two_asterisks_stand_for_any_segments(
    a: Seq<Seq<char>>,
    b: Seq<Seq<char>>,
    path: Seq<Seq<char>>,
)
    ensures
        path_matches(a + seq!["**"@] + b, path) <==> exists|from: int, to: int| #[trigger]
            path_fits_around(a, b, path, from, to),
{
    let glob = a + seq!["**"@] + b;
    let rest = seq!["**"@] + b;
    assert(glob =~= a + rest);
    lemma_path_two(a, rest, path);
    if path_matches(glob, path) {
        let i = choose|i: int|
            0 <= i <= path.len() && #[trigger] path_matches(a, path.take(i)) && path_matches(
                rest,
                path.skip(i),
            );
        let t = path.skip(i);
        lemma_path_any(b, t);
        let j = choose|j: int| 0 <= j <= t.len() && #[trigger] path_matches(b, t.skip(j));
        assert(t.skip(j) =~= path.skip(i + j));
        assert(path_fits_around(a, b, path, i, i + j));
    }
    if exists|from: int, to: int| #[trigger] path_fits_around(a, b, path, from, to) {
        let (i, j) = choose|i: int, j: int| #[trigger] path_fits_around(a, b, path, i, j);
        let t = path.skip(i);
        assert(t.skip(j - i) =~= path.skip(j));
        lemma_path_any(b, t);
        assert(path_matches(b, t.skip(j - i)));
        assert(path_matches(rest, t));
        assert(path_matches(a, path.take(i)));
    }
}

/// Whether two characters are the same in a path, where a backslash is a slash.
pub open spec fn same_in_path(a: char, b: char) -> bool {
    a == b || ((a == '/' || a == '\\') && (b == '/' || b == '\\'))
}

proof fn lemma_no_marks_in_split(s: Seq<char>, c: char)
    requires
        forall|i: int| 0 <= i < s.len() ==> #[trigger] s[i] != c,
    ensures
        forall|i: int, j: int|
            0 <= i < split(s, '/').len() && 0 <= j < split(s, '/')[i].len()
                ==> #[trigger] split(s, '/')[i][j] != c,
    decreases s.len(),
{
    if s.len() > 0 {
        let front = s.drop_last();
        lemma_split(front, '/');
        assert forall|i: int| 0 <= i < front.len() implies #[trigger] front[i] != c by {
            assert(front[i] == s[i]);
        }
        lemma_no_marks_in_split(front, c);
        let parts = split(front, '/');
        let whole = split(s, '/');
        assert(s.last() == s[s.len() - 1]);
        assert forall|i: int, j: int| 0 <= i < whole.len() && 0 <= j < whole[i].len() implies
            #[trigger] whole[i][j] != c by {
            if i < parts.len() - 1 {
                assert(whole[i] == parts[i]);
                assert(parts[i][j] != c);
            } else if s.last() == '/' {
                if i < parts.len() {
                    assert(whole[i] == parts[i]);
                    assert(parts[i][j] != c);
                }
            } else if j < parts.last().len() {
                assert(parts[i][j] != c);
            }
        }
    }
}

/// A pattern without asterisks and question marks fits the path that it is, and no other, where a
/// backslash is a slash.
pub proof fn law_a_plain_pattern_fits_itself(glob: Seq<char>, path: Seq<char>)
    requires
        forall|i: int| 0 <= i < glob.len() ==> #[trigger] glob[i] != '*' && glob[i] != '?',
    ensures
        path_fits(glob, path) <==> glob.len() == path.len() && forall|i: int|
            0 <= i < glob.len() ==> same_in_path(#[trigger] glob[i], path[i]),
{
    let g = normalized(glob);
    let p = normalized(path);
    assert forall|i: int| 0 <= i < g.len() implies #[trigger] g[i] != '*' by {
        assert(glob[i] != '*');
    }
    assert forall|i: int| 0 <= i < g.len() implies #[trigger] g[i] != '?' by {
        assert(glob[i] != '?');
    }
    lemma_no_marks_in_split(g, '*');
    lemma_no_marks_in_split(g, '?');
    let gs = split(g, '/');
    let ps = split(p, '/');
    reveal_strlit("**");
    assert("**"@[0] == '*');
    assert forall|i: int| 0 <= i < gs.len() implies #[trigger] gs[i] != "**"@ by {
        if gs[i] == "**"@ {
            assert(gs[i][0] != '*');
        }
    }
    law_a_pattern_takes_as_many_segments_as_it_has(gs, ps);
    assert forall|i: int| 0 <= i < gs.len() && i < ps.len() implies segment_scan(
        #[trigger] gs[i],
        ps[i],
    ) == (gs[i] == ps[i]) by {
        assert forall|j: int| 0 <= j < gs[i].len() implies #[trigger] gs[i][j] != '*' by {}
        law_a_segment_without_asterisks(gs[i], ps[i]);
        if same_but_marks(gs[i], ps[i]) {
            assert forall|j: int| 0 <= j < gs[i].len() implies gs[i][j] == ps[i][j] by {
                assert(gs[i][j] != '?');
            }
            assert(gs[i] =~= ps[i]);
        }
    }
    if path_fits(glob, path) {
        assert(gs =~= ps);
        law_join_split(g, '/');
        law_join_split(p, '/');
        assert(g == p);
        assert forall|i: int| 0 <= i < glob.len() implies same_in_path(
            #[trigger] glob[i],
            path[i],
        ) by {
            assert(g[i] == p[i]);
        }
    }
    if glob.len() == path.len() && forall|i: int|
        0 <= i < glob.len() ==> same_in_path(#[trigger] glob[i], path[i]) {
        assert forall|i: int| 0 <= i < g.len() implies g[i] == p[i] by {
            assert(same_in_path(glob[i], path[i]));
        }
        assert(g =~= p);
    }
}

// The directory that is watched.

spec fn special(c: char) -> bool {
    c == '*' || c == '?' || c == '['
}

proof fn lemma_magic_at(glob: Seq<char>, m: int)
    requires
        0 <= m <= glob.len(),
        forall|i: int| 0 <= i < m ==> !special(#[trigger] glob[i]),
        m < glob.len() ==> special(glob[m]),
    ensures
        magic_at(glob) == m,
    decreases glob.len(),
{
    if m > 0 {
        let rest = glob.drop_first();
        assert(!special(glob[0]));
        assert forall|i: int| 0 <= i < m - 1 implies !special(#[trigger] rest[i]) by {
            assert(rest[i] == glob[i + 1]);
        }
        lemma_magic_at(rest, m - 1);
    }
}

proof fn lemma_behind_slash(s: Seq<char>, k: int)
    requires
        0 <= k <= s.len(),
        k > 0 ==> s[k - 1] == '/',
        forall|i: int| k <= i < s.len() ==> #[trigger] s[i] != '/',
    ensures
        crate::glob::behind_last_slash(s) == k,
    decreases s.len(),
{
    if s.len() > k {
        assert(s[s.len() - 1] != '/');
        let front = s.drop_last();
        assert forall|i: int| k <= i < front.len() implies #[trigger] front[i] != '/' by {
            assert(front[i] == s[i]);
        }
        lemma_behind_slash(front, k);
    }
}

/// What is watched is the directory up to the last slash in front of the first asterisk, question
/// mark or bracket: `m` is where the first of these stands, or the length, and `k` is where the last
/// slash in front of it stands.
pub proof fn law_the_directory_in_front_of_the_pattern(glob: Seq<char>, m: int, k: int)
    requires
        0 <= k < m <= glob.len(),
        forall|i: int|
            0 <= i < m ==> #[trigger] glob[i] != '*' && glob[i] != '?' && glob[i] != '[',
        m < glob.len() ==> glob[m] == '*' || glob[m] == '?' || glob[m] == '[',
        glob[k] == '/',
        forall|i: int| k < i < m ==> #[trigger] glob[i] != '/',
    ensures
        literal_prefix(glob) == if k == 0 {
            seq!['/']
        } else {
            glob.take(k)
        },
{
    reveal_strlit("/");
    assert("/"@ =~= seq!['/']);
    lemma_magic_at(glob, m);
    let prefix = glob.take(m);
    lemma_behind_slash(prefix, k + 1);
    assert(prefix.take(k) =~= glob.take(k));
}

/// A pattern without a slash in front of its first special character is looked for here.
pub proof fn law_a_pattern_without_a_directory(glob: Seq<char>, m: int)
    requires
        0 <= m <= glob.len(),
        forall|i: int|
            0 <= i < m ==> #[trigger] glob[i] != '*' && glob[i] != '?' && glob[i] != '[' && glob[i]
                != '/',
        m < glob.len() ==> glob[m] == '*' || glob[m] == '?' || glob[m] == '[',
    ensures
        literal_prefix(glob) == seq!['.'],
{
    reveal_strlit(".");
    assert("."@ =~= seq!['.']);
    lemma_magic_at(glob, m);
    lemma_behind_slash(glob.take(m), 0);
}

} // verus!
