//! The preprocessor: removes `#include` and `#define` lines, keeping line
//! numbers, and records the included paths.

use vstd::prelude::*;

use crate::text::{
    chars_eq, chars_to_string, is_prefix, is_whitespace, starts_with, str_chars, unicode_whitespace,
};

verus! {

/// An `#include` found by the preprocessor.
#[derive(Debug, Clone, PartialEq, Eq)]
pub struct IncludeDirective {
    pub path: String,
    pub line_number: usize,
}

/// The preprocessed source and its includes.
#[derive(Debug, Clone, PartialEq, Eq)]
pub struct PreprocessResult {
    pub cleaned_source: String,
    pub includes: Vec<IncludeDirective>,
}

/// `s` split at its newlines (the newlines dropped); always at least one
/// piece.
pub open spec fn split_newlines(s: Seq<char>) -> Seq<Seq<char>>
    decreases s.len(),
{
    if s.len() == 0 {
        seq![Seq::empty()]
    } else {
        let p = split_newlines(s.drop_last());
        if s.last() == '\n' {
            p.push(Seq::empty())
        } else {
            p.update(p.len() - 1, p.last().push(s.last()))
        }
    }
}

/// A line that ended in `\r\n` loses its `\r`.
pub open spec fn strip_cr(l: Seq<char>) -> Seq<char> {
    if l.len() > 0 && l.last() == '\r' {
        l.drop_last()
    } else {
        l
    }
}

/// The lines of `s` as `str::lines` gives them: split at `\n`, a `\r`
/// before the `\n` dropped, and no empty last line after a final newline.
pub open spec fn lines_of(s: Seq<char>) -> Seq<Seq<char>> {
    let p = split_newlines(s);
    let n = p.len();
    let m = if p.last().len() == 0 {
        n - 1
    } else {
        n as int
    };
    Seq::new(m as nat, |k: int| if k < n - 1 {
        strip_cr(p[k])
    } else {
        p[k]
    })
}

/// `l` without leading and trailing Unicode whitespace.
pub open spec fn trim(l: Seq<char>) -> Seq<char> {
    trim_end(trim_start(l))
}

pub open spec fn trim_start(l: Seq<char>) -> Seq<char>
    decreases l.len(),
{
    if l.len() > 0 && unicode_whitespace(l[0]) {
        trim_start(l.subrange(1, l.len() as int))
    } else {
        l
    }
}

pub open spec fn trim_end(l: Seq<char>) -> Seq<char>
    decreases l.len(),
{
    if l.len() > 0 && unicode_whitespace(l.last()) {
        trim_end(l.drop_last())
    } else {
        l
    }
}

/// The path an `#include` line names: between double quotes or angle
/// brackets after `#include` (and optional whitespace).
pub open spec fn include_path(trimmed: Seq<char>) -> Option<Seq<char>> {
    let t = trim(trimmed.subrange(8, trimmed.len() as int));
    if t.len() >= 2 && t[0] == '"' && t.last() == '"' {
        Some(t.subrange(1, t.len() - 1))
    } else if t.len() >= 2 && t[0] == '<' && t.last() == '>' {
        Some(t.subrange(1, t.len() - 1))
    } else {
        None
    }
}

/// The cleaned text of lines `0..k`: directive lines become empty lines.
pub open spec fn cleaned_lines(lines: Seq<Seq<char>>) -> Seq<char>
    decreases lines.len(),
{
    if lines.len() == 0 {
        Seq::empty()
    } else {
        let l = lines.last();
        let t = trim(l);
        cleaned_lines(lines.drop_last()) + if is_prefix("#include"@, t) || is_prefix(
            "#define"@,
            t,
        ) {
            seq!['\n']
        } else {
            l.push('\n')
        }
    }
}

/// The includes of lines `0..k`, as (path, line number) pairs.
pub open spec fn includes_of(lines: Seq<Seq<char>>) -> Seq<(Seq<char>, int)>
    decreases lines.len(),
{
    if lines.len() == 0 {
        Seq::empty()
    } else {
        let t = trim(lines.last());
        let rest = includes_of(lines.drop_last());
        if is_prefix("#include"@, t) && include_path(t) is Some {
            rest.push((include_path(t)->0, lines.len() as int))
        } else {
            rest
        }
    }
}

pub(crate) fn trim_chars(l: &Vec<char>) -> (r: Vec<char>)
    ensures
        r@ == trim(l@),
{
    let mut a: usize = 0;
    assert(l@.subrange(0, l@.len() as int) =~= l@);
    while a < l.len() && is_whitespace(l[a])
        invariant
            a <= l@.len(),
            trim_start(l@) == trim_start(l@.subrange(a as int, l@.len() as int)),
        decreases l.len() - a,
    {
        assert(l@.subrange(a as int, l@.len() as int).subrange(1, l@.len() - a) =~= l@.subrange(
            a + 1,
            l@.len() as int,
        ));
        a = a + 1;
    }
    assert(a < l@.len() ==> l@.subrange(a as int, l@.len() as int)[0] == l@[a as int]);
    assert(l@.subrange(a as int, l@.len() as int).subrange(0, (l@.len() - a) as int) =~= l@.subrange(
        a as int,
        l@.len() as int,
    ));
    let mut b: usize = l.len();
    while b > a && is_whitespace(l[b - 1])
        invariant
            a <= b <= l@.len(),
            trim(l@) == trim_end(l@.subrange(a as int, b as int)),
        decreases b,
    {
        assert(l@.subrange(a as int, b as int).drop_last() =~= l@.subrange(a as int, b - 1));
        b = b - 1;
    }
    let mut out: Vec<char> = Vec::new();
    let mut i: usize = a;
    while i < b
        invariant
            a <= i <= b <= l@.len(),
            out@ == l@.subrange(a as int, i as int),
        decreases b - i,
    {
        out.push(l[i]);
        i = i + 1;
        assert(out@ =~= l@.subrange(a as int, i as int));
    }
    out
}


/// The views of a vector of character vectors.
pub open spec fn views(v: Seq<Vec<char>>) -> Seq<Seq<char>> {
    v.map_values(|x: Vec<char>| x@)
}

fn source_lines(chars: &Vec<char>) -> (r: Vec<Vec<char>>)
    ensures
        views(r@) == lines_of(chars@),
{
    let mut done: Vec<Vec<char>> = Vec::new();
    let mut cur: Vec<char> = Vec::new();
    let mut i: usize = 0;
    assert(chars@.take(0) =~= Seq::<char>::empty());
    assert(views(done@).push(cur@) =~= split_newlines(chars@.take(0)));
    while i < chars.len()
        invariant
            i <= chars@.len(),
            views(done@).push(cur@) == split_newlines(chars@.take(i as int)),
        decreases chars.len() - i,
    {
        assert(chars@.take(i + 1).drop_last() =~= chars@.take(i as int));
        let ghost prev = split_newlines(chars@.take(i as int));
        if chars[i] == '\n' {
            let piece = cur;
            done.push(piece);
            cur = Vec::new();
            assert(views(done@).push(cur@) =~= prev.push(Seq::empty()));
        } else {
            cur.push(chars[i]);
            assert(views(done@).push(cur@) =~= prev.update(
                prev.len() - 1,
                prev.last().push(chars@[i as int]),
            ));
        }
        i = i + 1;
    }
    assert(chars@.take(chars@.len() as int) =~= chars@);
    let ghost p = split_newlines(chars@);
    let mut lines: Vec<Vec<char>> = Vec::new();
    let mut k: usize = 0;
    while k < done.len()
        invariant
            k <= done@.len(),
            views(done@).push(cur@) == p,
            views(lines@) == Seq::new(k as nat, |j: int| strip_cr(p[j])),
        decreases done.len() - k,
    {
        let piece = &done[k];
        let mut line: Vec<char> = Vec::new();
        let n = if piece.len() > 0 && piece[piece.len() - 1] == '\r' {
            piece.len() - 1
        } else {
            piece.len()
        };
        let mut q: usize = 0;
        while q < n
            invariant
                q <= n <= piece@.len(),
                line@ == piece@.take(q as int),
            decreases n - q,
        {
            line.push(piece[q]);
            q = q + 1;
            assert(line@ =~= piece@.take(q as int));
        }
        assert(views(done@)[k as int] == piece@);
        assert(p[k as int] == piece@);
        assert(line@ =~= strip_cr(piece@));
        let ghost before = views(lines@);
        lines.push(line);
        assert(views(lines@) =~= before.push(strip_cr(p[k as int])));
        assert(views(lines@) =~= Seq::new((k + 1) as nat, |j: int| strip_cr(p[j])));
        k = k + 1;
    }
    assert(p.len() == done@.len() + 1);
    assert(p[p.len() - 1] == cur@);
    let ghost body = views(lines@);
    if cur.len() > 0 {
        lines.push(cur);
        assert(views(lines@) =~= body.push(p[p.len() - 1]));
    }
    assert(views(lines@) =~= lines_of(chars@));
    lines
}

fn extract_include_path(t: &Vec<char>) -> (r: Option<Vec<char>>)
    requires
        is_prefix("#include"@, t@),
    ensures
        match include_path(t@) {
            Some(path) => r matches Some(v) && v@ == path,
            None => r is None,
        },
{
    proof {
        reveal_strlit("#include");
    }
    let mut rest: Vec<char> = Vec::new();
    let mut i: usize = 8;
    while i < t.len()
        invariant
            8 <= i <= t@.len(),
            rest@ == t@.subrange(8, i as int),
        decreases t.len() - i,
    {
        rest.push(t[i]);
        i = i + 1;
        assert(rest@ =~= t@.subrange(8, i as int));
    }
    let x = trim_chars(&rest);
    let n = x.len();
    if n >= 2 && ((x[0] == '"' && x[n - 1] == '"') || (x[0] == '<' && x[n - 1] == '>')) {
        let mut path: Vec<char> = Vec::new();
        let mut j: usize = 1;
        while j < n - 1
            invariant
                1 <= j <= n - 1,
                n == x@.len(),
                path@ == x@.subrange(1, j as int),
            decreases n - 1 - j,
        {
            path.push(x[j]);
            j = j + 1;
            assert(path@ =~= x@.subrange(1, j as int));
        }
        Some(path)
    } else {
        None
    }
}

/// Removes `#include` and `#define` lines (each becomes an empty line, so
/// line numbers stay) and collects the included paths with their line
/// numbers. Every line of the result ends in a newline.
pub fn preprocess(source: &str) -> (r: PreprocessResult)
    ensures
        r.cleaned_source@ == cleaned_lines(lines_of(source@)),
        r.includes@.len() == includes_of(lines_of(source@)).len(),
        forall|k: int|
            0 <= k < r.includes@.len() ==> (#[trigger] r.includes@[k]).path@ == includes_of(
                lines_of(source@),
            )[k].0 && r.includes@[k].line_number == includes_of(lines_of(source@))[k].1,
{
    let chars = str_chars(source);
    let lines = source_lines(&chars);
    let ghost ls = lines_of(source@);
    let include_word = str_chars("#include");
    let define_word = str_chars("#define");
    let mut cleaned: Vec<char> = Vec::new();
    let mut includes: Vec<IncludeDirective> = Vec::new();
    let mut idx: usize = 0;
    while idx < lines.len()
        invariant
            idx <= lines@.len(),
            views(lines@) == ls,
            include_word@ == "#include"@,
            define_word@ == "#define"@,
            cleaned@ == cleaned_lines(ls.take(idx as int)),
            includes@.len() == includes_of(ls.take(idx as int)).len(),
            forall|k: int|
                0 <= k < includes@.len() ==> (#[trigger] includes@[k]).path@ == includes_of(
                    ls.take(idx as int),
                )[k].0 && includes@[k].line_number == includes_of(ls.take(idx as int))[k].1,
        decreases lines.len() - idx,
    {
        assert(ls.take(idx + 1).drop_last() =~= ls.take(idx as int));
        assert(lines@[idx as int]@ == ls[idx as int]);
        let line = &lines[idx];
        let t = trim_chars(line);
        let ghost prev_includes = includes@;
        if starts_with(&t, &include_word) {
            match extract_include_path(&t) {
                Some(p) => {
                    includes.push(IncludeDirective { path: chars_to_string(&p), line_number: idx + 1 });
                },
                None => {},
            }
            cleaned.push('\n');
        } else if starts_with(&t, &define_word) {
            cleaned.push('\n');
        } else {
            let mut q: usize = 0;
            let ghost before = cleaned@;
            while q < line.len()
                invariant
                    q <= line@.len(),
                    cleaned@ == before + line@.take(q as int),
                decreases line.len() - q,
            {
                cleaned.push(line[q]);
                q = q + 1;
                assert(cleaned@ =~= before + line@.take(q as int));
            }
            cleaned.push('\n');
            assert(line@.take(line@.len() as int) =~= line@);
        }
        assert(cleaned@ =~= cleaned_lines(ls.take(idx + 1)));
        assert forall|k: int| 0 <= k < includes@.len() implies (#[trigger] includes@[k]).path@
            == includes_of(ls.take(idx + 1))[k].0 && includes@[k].line_number == includes_of(
            ls.take(idx + 1),
        )[k].1 by {
            if k < prev_includes.len() {
                assert(includes@[k] == prev_includes[k]);
            }
        }
        idx = idx + 1;
    }
    assert(ls.take(ls.len() as int) =~= ls);
    PreprocessResult { cleaned_source: chars_to_string(&cleaned), includes }
}
} // verus!
