//! Asset references inside style sheets.
//!
//! A line holding `begin assetreplace` marks the next line as the quoted URL
//! of an asset; that URL gets a `cachebust` query parameter.
use vstd::prelude::*;
use crate::cachebuster::{cachebusted, process_url};
use crate::text::{chars_contain, chars_of, contains_text, push_char, string_of, strings_model};

verus! {

// ---------------------------------------------------------------------------
// Lines
// ---------------------------------------------------------------------------

/// Index of the first `c` in `s`, or -1 when there is none.
pub open spec fn first_index_of(s: Seq<char>, c: char) -> int
    decreases s.len(),
{
    if s.len() == 0 {
        -1
    } else if s[0] == c {
        0
    } else {
        let k = first_index_of(s.drop_first(), c);
        if k < 0 {
            -1
        } else {
            k + 1
        }
    }
}

pub proof fn lemma_first_index_of_range(s: Seq<char>, c: char)
    ensures
        -1 <= first_index_of(s, c) < s.len(),
    decreases s.len(),
{
    if s.len() > 0 {
        lemma_first_index_of_range(s.drop_first(), c);
    }
}

proof fn lemma_first_index_of_found(s: Seq<char>, c: char, k: int)
    requires
        0 <= k < s.len(),
        s[k] == c,
        forall|m: int| 0 <= m < k ==> s[m] != c,
    ensures
        first_index_of(s, c) == k,
    decreases k,
{
    if k > 0 {
        lemma_first_index_of_found(s.drop_first(), c, k - 1);
    }
}

proof fn lemma_first_index_of_none(s: Seq<char>, c: char)
    requires
        forall|m: int| 0 <= m < s.len() ==> s[m] != c,
    ensures
        first_index_of(s, c) == -1,
    decreases s.len(),
{
    if s.len() > 0 {
        lemma_first_index_of_none(s.drop_first(), c);
    }
}

/// A line without the `\r` of a `\r\n` line ending.
pub open spec fn without_cr(line: Seq<char>) -> Seq<char> {
    if line.len() > 0 && line.last() == '\r' {
        line.drop_last()
    } else {
        line
    }
}

/// The lines of a text: split at `\n`, a `\r` before the `\n` dropped, no
/// line after a final `\n` (as `str::lines`).
pub open spec fn text_lines(s: Seq<char>) -> Seq<Seq<char>>
    decreases s.len(),
{
    if s.len() == 0 {
        Seq::empty()
    } else {
        let i = first_index_of(s, '\n');
        proof {
            lemma_first_index_of_range(s, '\n');
        }
        if i < 0 {
            seq![s]
        } else {
            seq![without_cr(s.take(i))] + text_lines(s.skip(i + 1))
        }
    }
}

/// The models of a sequence of character vectors.
pub open spec fn lines_model(v: Seq<Vec<char>>) -> Seq<Seq<char>> {
    v.map_values(|l: Vec<char>| l@)
}

/// The lines of a text (see `text_lines`).
pub fn split_lines(s: &Vec<char>) -> (r: Vec<Vec<char>>)
    ensures
        lines_model(r@) == text_lines(s@),
{
    let mut r: Vec<Vec<char>> = Vec::new();
    let mut pos: usize = 0;
    assert(s@.skip(0) =~= s@);
    assert(lines_model(r@) + text_lines(s@.skip(0)) =~= text_lines(s@));
    while pos < s.len()
        invariant
            pos <= s.len(),
            lines_model(r@) + text_lines(s@.skip(pos as int)) == text_lines(s@),
        decreases s.len() - pos,
    {
        let ghost rest = s@.skip(pos as int);
        let mut j: usize = pos;
        while j < s.len() && s[j] != '\n'
            invariant
                pos <= j <= s.len(),
                rest == s@.skip(pos as int),
                forall|m: int| pos <= m < j ==> s@[m] != '\n',
            decreases s.len() - j,
        {
            j = j + 1;
        }
        let ghost before = lines_model(r@);
        if j < s.len() {
            let end: usize = if j > pos && s[j - 1] == '\r' {
                j - 1
            } else {
                j
            };
            let mut line: Vec<char> = Vec::new();
            let mut k: usize = pos;
            while k < end
                invariant
                    pos <= k <= end <= j < s.len(),
                    line@ == s@.subrange(pos as int, k as int),
                decreases end - k,
            {
                line.push(s[k]);
                assert(s@.subrange(pos as int, k + 1) =~= s@.subrange(pos as int, k as int).push(s@[k as int]));
                k = k + 1;
            }
            proof {
                lemma_first_index_of_found(rest, '\n', j - pos);
                assert(rest.take(j - pos) =~= s@.subrange(pos as int, j as int));
                assert(without_cr(rest.take(j - pos)) =~= line@);
                assert(rest.skip(j - pos + 1) =~= s@.skip(j + 1));
                assert(text_lines(rest) == seq![line@] + text_lines(s@.skip(j + 1)));
            }
            r.push(line);
            assert(lines_model(r@) =~= before.push(line@));
            assert(lines_model(r@) + text_lines(s@.skip(j + 1)) =~= before + text_lines(rest));
            pos = j + 1;
        } else {
            let mut line: Vec<char> = Vec::new();
            let mut k: usize = pos;
            while k < s.len()
                invariant
                    pos <= k <= s.len(),
                    line@ == s@.subrange(pos as int, k as int),
                decreases s.len() - k,
            {
                line.push(s[k]);
                assert(s@.subrange(pos as int, k + 1) =~= s@.subrange(pos as int, k as int).push(s@[k as int]));
                k = k + 1;
            }
            proof {
                lemma_first_index_of_none(rest, '\n');
                assert(rest =~= line@);
                assert(text_lines(rest) == seq![line@]);
            }
            r.push(line);
            assert(lines_model(r@) =~= before.push(line@));
            assert(s@.skip(s.len() as int) =~= Seq::<char>::empty());
            assert(lines_model(r@) + text_lines(s@.skip(s.len() as int)) =~= before + text_lines(rest));
            pos = s.len();
        }
    }
    assert(s@.skip(s.len() as int) =~= Seq::<char>::empty());
    assert(lines_model(r@) =~= lines_model(r@) + text_lines(s@.skip(s.len() as int)));
    r
}

// ---------------------------------------------------------------------------
// Trimming
// ---------------------------------------------------------------------------

/// A character with the Unicode `White_Space` property (as `char::is_whitespace`).
pub open spec fn is_unicode_whitespace(c: char) -> bool {
    ||| c == '\t'
    ||| c == '\n'
    ||| c == '\u{0B}'
    ||| c == '\u{0C}'
    ||| c == '\r'
    ||| c == ' '
    ||| c == '\u{85}'
    ||| c == '\u{A0}'
    ||| c == '\u{1680}'
    ||| ('\u{2000}' <= c && c <= '\u{200A}')
    ||| c == '\u{2028}'
    ||| c == '\u{2029}'
    ||| c == '\u{202F}'
    ||| c == '\u{205F}'
    ||| c == '\u{3000}'
}

/// Whether `c` has the Unicode `White_Space` property.
pub fn is_whitespace_char(c: char) -> (r: bool)
    ensures
        r == is_unicode_whitespace(c),
{
    c == '\t' || c == '\n' || c == '\u{0B}' || c == '\u{0C}' || c == '\r' || c == ' ' || c == '\u{85}'
        || c == '\u{A0}' || c == '\u{1680}' || ('\u{2000}' <= c && c <= '\u{200A}') || c == '\u{2028}'
        || c == '\u{2029}' || c == '\u{202F}' || c == '\u{205F}' || c == '\u{3000}'
}

/// `s` without leading white space.
pub open spec fn trim_start(s: Seq<char>) -> Seq<char>
    decreases s.len(),
{
    if s.len() > 0 && is_unicode_whitespace(s[0]) {
        trim_start(s.drop_first())
    } else {
        s
    }
}

/// `s` without trailing white space.
pub open spec fn trim_end(s: Seq<char>) -> Seq<char>
    decreases s.len(),
{
    if s.len() > 0 && is_unicode_whitespace(s.last()) {
        trim_end(s.drop_last())
    } else {
        s
    }
}

/// `s` without leading and trailing white space (as `str::trim`).
pub open spec fn trim(s: Seq<char>) -> Seq<char> {
    trim_end(trim_start(s))
}

/// The URL written on an asset line: the line trimmed, then without one
/// leading `"` and without one trailing `"`.
pub open spec fn unquoted(line: Seq<char>) -> Seq<char> {
    let p = trim(line);
    let p1 = if p.len() > 0 && p[0] == '"' {
        p.drop_first()
    } else {
        p
    };
    if p1.len() > 0 && p1.last() == '"' {
        p1.drop_last()
    } else {
        p1
    }
}

/// The URL written on an asset line (see `unquoted`).
fn unquote(line: &Vec<char>) -> (r: String)
    ensures
        r@ == unquoted(line@),
{
    let ghost s = line@;
    let mut a: usize = 0;
    assert(s.skip(0) =~= s);
    while a < line.len() && is_whitespace_char(line[a])
        invariant
            a <= line.len(),
            s == line@,
            trim_start(s) == trim_start(s.skip(a as int)),
        decreases line.len() - a,
    {
        assert(s.skip(a as int).drop_first() =~= s.skip(a + 1));
        a = a + 1;
    }
    let ghost ts = s.skip(a as int);
    assert(trim_start(ts) == ts);
    let mut b: usize = line.len();
    assert(ts =~= s.subrange(a as int, b as int));
    while b > a && is_whitespace_char(line[b - 1])
        invariant
            a <= b <= line.len(),
            s == line@,
            trim_end(ts) == trim_end(s.subrange(a as int, b as int)),
        decreases b,
    {
        assert(s.subrange(a as int, b as int).drop_last() =~= s.subrange(a as int, b - 1));
        b = b - 1;
    }
    assert(trim(s) == s.subrange(a as int, b as int));
    let ghost p = s.subrange(a as int, b as int);
    if a < b && line[a] == '"' {
        assert(p.drop_first() =~= s.subrange(a + 1, b as int));
        a = a + 1;
    }
    let ghost p1 = s.subrange(a as int, b as int);
    if a < b && line[b - 1] == '"' {
        assert(p1.drop_last() =~= s.subrange(a as int, b - 1));
        b = b - 1;
    }
    string_of(line, a, b)
}

// ---------------------------------------------------------------------------
// Style sheets
// ---------------------------------------------------------------------------

/// Whether a line marks the next one as an asset line.
pub open spec fn is_marker_line(line: Seq<char>) -> bool {
    contains_text(line, "begin assetreplace"@)
}

/// Whether every marker line has a next line (a marker on the last line is
/// an error); a line taken as an asset line is not itself read as a marker.
pub open spec fn css_lines_defined(lines: Seq<Seq<char>>) -> bool
    decreases lines.len(),
{
    if lines.len() == 0 {
        true
    } else if is_marker_line(lines[0]) {
        lines.len() >= 2 && css_lines_defined(lines.skip(2))
    } else {
        css_lines_defined(lines.skip(1))
    }
}

/// The asset URLs of the asset lines, in order.
pub open spec fn css_urls(lines: Seq<Seq<char>>) -> Seq<Seq<char>>
    decreases lines.len(),
{
    if lines.len() == 0 {
        Seq::empty()
    } else if is_marker_line(lines[0]) && lines.len() >= 2 {
        seq![unquoted(lines[1])] + css_urls(lines.skip(2))
    } else if is_marker_line(lines[0]) {
        Seq::empty()
    } else {
        css_urls(lines.skip(1))
    }
}

/// The style sheet rewritten: every line followed by `\n`, and every asset
/// line replaced by its URL, cache busted with the next digest, in quotes.
pub open spec fn css_rewritten(lines: Seq<Seq<char>>, digests: Seq<Seq<char>>) -> Seq<char>
    decreases lines.len(),
{
    if lines.len() == 0 {
        Seq::empty()
    } else if is_marker_line(lines[0]) && lines.len() >= 2 {
        lines[0] + seq!['\n', '"'] + cachebusted(unquoted(lines[1]), digests[0]) + seq!['"', '\n']
            + css_rewritten(lines.skip(2), digests.drop_first())
    } else {
        lines[0] + seq!['\n'] + css_rewritten(lines.skip(1), digests)
    }
}

/// Whether the asset markers of a style sheet are well placed.
pub open spec fn css_imports_defined(css: Seq<char>) -> bool {
    css_lines_defined(text_lines(css))
}

/// The asset URLs of a style sheet, or `None` when a marker is on its last
/// line, where processing the style sheet fails.
pub fn css_asset_urls(css: &str) -> (r: Option<Vec<String>>)
    ensures
        match r {
            Some(urls) => css_imports_defined(css@) && strings_model(urls@) == css_urls(text_lines(css@)),
            None => !css_imports_defined(css@),
        },
{
    let cs = chars_of(css);
    let lines = split_lines(&cs);
    let ghost ls = lines_model(lines@);
    let marker = chars_of("begin assetreplace");
    let mut urls: Vec<String> = Vec::new();
    let mut i: usize = 0;
    assert(ls.skip(0) =~= ls);
    assert(strings_model(urls@) + css_urls(ls.skip(0)) =~= css_urls(ls));
    while i < lines.len()
        invariant
            i <= lines.len(),
            ls == lines_model(lines@),
            ls == text_lines(css@),
            marker@ == "begin assetreplace"@,
            strings_model(urls@) + css_urls(ls.skip(i as int)) == css_urls(ls),
            css_lines_defined(ls) == css_lines_defined(ls.skip(i as int)),
        decreases lines.len() - i,
    {
        let ghost rest = ls.skip(i as int);
        assert(rest[0] == lines@[i as int]@);
        assert(rest.skip(1) =~= ls.skip(i + 1));
        if chars_contain(&lines[i], &marker) {
            if i + 1 >= lines.len() {
                return None;
            }
            assert(rest[1] == lines@[i + 1]@);
            assert(rest.skip(2) =~= ls.skip(i + 2));
            let u = unquote(&lines[i + 1]);
            let ghost before = strings_model(urls@);
            urls.push(u);
            assert(strings_model(urls@) =~= before.push(u@));
            assert(strings_model(urls@) + css_urls(ls.skip(i + 2)) =~= before + css_urls(rest));
            i = i + 2;
        } else {
            i = i + 1;
        }
    }
    assert(ls.skip(lines.len() as int) =~= Seq::<Seq<char>>::empty());
    assert(strings_model(urls@) =~= strings_model(urls@) + css_urls(ls.skip(lines.len() as int)));
    Some(urls)
}

/// Appends `cs` to `out`.
fn push_all(out: &mut String, cs: &Vec<char>)
    ensures
        final(out)@ == old(out)@ + cs@,
{
    let mut i: usize = 0;
    assert(old(out)@ + cs@.take(0) =~= old(out)@);
    while i < cs.len()
        invariant
            i <= cs.len(),
            out@ == old(out)@ + cs@.take(i as int),
        decreases cs.len() - i,
    {
        push_char(out, cs[i]);
        assert(old(out)@ + cs@.take(i + 1) =~= (old(out)@ + cs@.take(i as int)).push(cs@[i as int]));
        i = i + 1;
    }
    assert(cs@.take(cs.len() as int) =~= cs@);
}

/// Rewrites a style sheet: every line is kept and ended with `\n`, and the
/// line after each `begin assetreplace` marker is replaced by its URL, cache
/// busted with the next of `digests`, in quotes.
pub fn process_css_imports(css: &str, digests: &Vec<String>) -> (r: String)
    requires
        css_imports_defined(css@),
        digests@.len() == css_urls(text_lines(css@)).len(),
    ensures
        r@ == css_rewritten(text_lines(css@), strings_model(digests@)),
{
    let cs = chars_of(css);
    let lines = split_lines(&cs);
    let ghost ls = lines_model(lines@);
    let ghost ds = strings_model(digests@);
    let marker = chars_of("begin assetreplace");
    let mut out: String = String::new();
    let mut i: usize = 0;
    let mut d: usize = 0;
    assert(ls.skip(0) =~= ls);
    assert(ds.skip(0) =~= ds);
    assert(out@ + css_rewritten(ls.skip(0), ds.skip(0)) =~= css_rewritten(ls, ds));
    while i < lines.len()
        invariant
            i <= lines.len(),
            d <= digests.len(),
            ls == lines_model(lines@),
            ls == text_lines(css@),
            ds == strings_model(digests@),
            marker@ == "begin assetreplace"@,
            css_lines_defined(ls.skip(i as int)),
            css_urls(ls.skip(i as int)).len() == ds.len() - d,
            out@ + css_rewritten(ls.skip(i as int), ds.skip(d as int)) == css_rewritten(ls, ds),
        decreases lines.len() - i,
    {
        let ghost rest = ls.skip(i as int);
        let ghost before = out@;
        assert(rest[0] == lines@[i as int]@);
        assert(rest.skip(1) =~= ls.skip(i + 1));
        push_all(&mut out, &lines[i]);
        push_char(&mut out, '\n');
        if chars_contain(&lines[i], &marker) {
            assert(rest[1] == lines@[i + 1]@);
            assert(rest.skip(2) =~= ls.skip(i + 2));
            assert(ds.skip(d as int)[0] == digests@[d as int]@);
            assert(ds.skip(d as int).drop_first() =~= ds.skip(d + 1));
            let u = unquote(&lines[i + 1]);
            let busted = process_url(u.as_str(), digests[d].as_str());
            push_char(&mut out, '"');
            let bc = chars_of(busted.as_str());
            push_all(&mut out, &bc);
            push_char(&mut out, '"');
            push_char(&mut out, '\n');
            assert(out@ =~= before + (lines@[i as int]@ + seq!['\n', '"'] + cachebusted(u@, digests@[d as int]@) + seq!['"', '\n']));
            i = i + 2;
            d = d + 1;
        } else {
            assert(out@ =~= before + (lines@[i as int]@ + seq!['\n']));
            i = i + 1;
        }
    }
    assert(ls.skip(lines.len() as int) =~= Seq::<Seq<char>>::empty());
    out
}


// ---------------------------------------------------------------------------
// Laws
// ---------------------------------------------------------------------------

proof fn lemma_first_index_of_props(s: Seq<char>, c: char)
    ensures
        first_index_of(s, c) >= 0 ==> s[first_index_of(s, c)] == c,
        s.contains(c) ==> first_index_of(s, c) >= 0,
    decreases s.len(),
{
    lemma_first_index_of_range(s, c);
    if s.len() > 0 {
        lemma_first_index_of_props(s.drop_first(), c);
        if s.contains(c) && s[0] != c {
            let k = choose|k: int| 0 <= k < s.len() && s[k] == c;
            assert(s.drop_first()[k - 1] == c);
        }
    }
}

/// A style sheet whose lines hold no marker, that ends with a newline (or is
/// empty) and holds no carriage return, has no asset URL and comes out unchanged.
pub proof fn law_style_sheet_without_markers_is_kept(css: Seq<char>)
    requires
        css.len() == 0 || css.last() == '\n',
        !css.contains('\r'),
        forall|i: int| 0 <= i < text_lines(css).len() ==> !is_marker_line(#[trigger] text_lines(css)[i]),
    ensures
        css_urls(text_lines(css)) == Seq::<Seq<char>>::empty(),
        css_rewritten(text_lines(css), Seq::empty()) == css,
    decreases css.len(),
{
    if css.len() > 0 {
        assert(css[css.len() - 1] == '\n');
        assert(css.contains('\n'));
        lemma_first_index_of_props(css, '\n');
        lemma_first_index_of_range(css, '\n');
        let i = first_index_of(css, '\n');
        let line = css.take(i);
        let rest = css.skip(i + 1);
        if line.len() > 0 {
            assert(line.last() == css[i - 1]);
            assert(css[i - 1] != '\r');
        }
        assert(without_cr(line) == line);
        let lines = text_lines(css);
        assert(lines == seq![line] + text_lines(rest));
        assert(lines[0] == line);
        assert(lines.skip(1) =~= text_lines(rest));
        assert(!rest.contains('\r')) by {
            if rest.contains('\r') {
                let k = choose|k: int| 0 <= k < rest.len() && rest[k] == '\r';
                assert(css[i + 1 + k] == '\r');
            }
        }
        if rest.len() > 0 {
            assert(rest.last() == css.last());
        }
        assert forall|k: int| 0 <= k < text_lines(rest).len() implies !is_marker_line(#[trigger] text_lines(rest)[k]) by {
            assert(text_lines(rest)[k] == lines[k + 1]);
        }
        law_style_sheet_without_markers_is_kept(rest);
        assert(!is_marker_line(lines[0]));
        assert(css =~= line + seq!['\n'] + rest);
    }
}

proof fn lemma_css_urls_concat(a: Seq<Seq<char>>, b: Seq<Seq<char>>)
    requires
        css_lines_defined(a),
    ensures
        css_urls(a + b) == css_urls(a) + css_urls(b),
    decreases a.len(),
{
    if a.len() == 0 {
        assert(a + b =~= b);
        assert(css_urls(a) + css_urls(b) =~= css_urls(b));
    } else {
        let ab = a + b;
        assert(ab[0] == a[0]);
        if is_marker_line(a[0]) {
            assert(ab[1] == a[1]);
            assert(ab.skip(2) =~= a.skip(2) + b);
            lemma_css_urls_concat(a.skip(2), b);
        } else {
            assert(ab.skip(1) =~= a.skip(1) + b);
            lemma_css_urls_concat(a.skip(1), b);
        }
        assert(css_urls(ab) =~= css_urls(a) + css_urls(b));
    }
}

/// Style sheet lines that end between two entries (no marker is left
/// waiting for its asset line) can be rewritten on their own: the lines
/// that follow are rewritten with the digests that remain.
pub proof fn law_rewriting_splits_at_whole_lines(a: Seq<Seq<char>>, b: Seq<Seq<char>>, ds: Seq<Seq<char>>)
    requires
        css_lines_defined(a),
        css_urls(a).len() <= ds.len(),
    ensures
        css_urls(a + b) == css_urls(a) + css_urls(b),
        css_rewritten(a + b, ds) == css_rewritten(a, ds) + css_rewritten(b, ds.skip(css_urls(a).len() as int)),
    decreases a.len(),
{
    if a.len() == 0 {
        assert(a + b =~= b);
        assert(ds.skip(0) =~= ds);
        assert(css_urls(a) + css_urls(b) =~= css_urls(b));
        assert(css_rewritten(a, ds) + css_rewritten(b, ds) =~= css_rewritten(b, ds));
    } else {
        let ab = a + b;
        assert(ab[0] == a[0]);
        if is_marker_line(a[0]) {
            assert(a.len() >= 2);
            assert(ab[1] == a[1]);
            assert(ab.skip(2) =~= a.skip(2) + b);
            let n = css_urls(a.skip(2)).len();
            law_rewriting_splits_at_whole_lines(a.skip(2), b, ds.drop_first());
            assert(ds.drop_first().skip(n as int) =~= ds.skip(n + 1int));
            assert(css_urls(ab) =~= css_urls(a) + css_urls(b));
            let head = a[0] + seq!['\n', '"'] + cachebusted(unquoted(a[1]), ds[0]) + seq!['"', '\n'];
            assert(css_rewritten(ab, ds) == head + css_rewritten(a.skip(2) + b, ds.drop_first()));
            assert(css_rewritten(a, ds) == head + css_rewritten(a.skip(2), ds.drop_first()));
            assert(css_rewritten(ab, ds) =~= css_rewritten(a, ds) + css_rewritten(b, ds.skip(css_urls(a).len() as int)));
        } else {
            assert(ab.skip(1) =~= a.skip(1) + b);
            law_rewriting_splits_at_whole_lines(a.skip(1), b, ds);
            assert(css_urls(ab) =~= css_urls(a) + css_urls(b));
            assert(css_rewritten(ab, ds) =~= css_rewritten(a, ds) + css_rewritten(b, ds.skip(css_urls(a).len() as int)));
        }
    }
}

/// Each asset line gets its own digest, in order: in a style sheet made of
/// whole lines `p`, a marker line `m`, an asset line `u` and the lines `s`,
/// the asset line is the asset URL number `k` (the number of asset URLs in
/// `p`), and it is written as its URL, cache busted with `ds[k]`, in quotes.
pub proof fn law_kth_asset_line_gets_the_kth_digest(
    p: Seq<Seq<char>>,
    m: Seq<char>,
    u: Seq<char>,
    s: Seq<Seq<char>>,
    ds: Seq<Seq<char>>,
)
    requires
        css_lines_defined(p),
        is_marker_line(m),
        ds.len() == css_urls(p + seq![m, u] + s).len(),
    ensures
        css_urls(p).len() < css_urls(p + seq![m, u] + s).len(),
        css_urls(p + seq![m, u] + s)[css_urls(p).len() as int] == unquoted(u),
        css_rewritten(p + seq![m, u] + s, ds) == css_rewritten(p, ds) + m + seq!['\n', '"'] + cachebusted(
            unquoted(u),
            ds[css_urls(p).len() as int],
        ) + seq!['"', '\n'] + css_rewritten(s, ds.skip(css_urls(p).len() + 1int)),
{
    let k = css_urls(p).len();
    let q = seq![m, u] + s;
    assert(p + seq![m, u] + s =~= p + q);
    assert(q[0] == m);
    assert(q[1] == u);
    assert(q.skip(2) =~= s);
    assert(css_urls(q) == seq![unquoted(u)] + css_urls(s));
    lemma_css_urls_concat(p, q);
    law_rewriting_splits_at_whole_lines(p, q, ds);
    let rest = ds.skip(k as int);
    assert(rest[0] == ds[k as int]);
    assert(rest.drop_first() =~= ds.skip(k + 1int));
    assert(css_rewritten(q, rest) == m + seq!['\n', '"'] + cachebusted(unquoted(u), rest[0]) + seq!['"', '\n']
        + css_rewritten(s, rest.drop_first()));
    assert(css_rewritten(p + q, ds) =~= css_rewritten(p, ds) + m + seq!['\n', '"'] + cachebusted(
        unquoted(u),
        ds[k as int],
    ) + seq!['"', '\n'] + css_rewritten(s, ds.skip(k + 1int)));
}

} // verus!
