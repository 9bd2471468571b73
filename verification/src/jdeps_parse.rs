//! Reading jdeps output: the `.dot` graph format and the `-verbose:class` text.
use vstd::prelude::*;

use crate::text::find_char;
use crate::text::find_line_end;
use crate::text::find_single_arrow;
use crate::text::find_token_end;
use crate::text::first_index;
use crate::text::first_token;
use crate::text::has_prefix;
use crate::text::lemma_line_end_bounds;
use crate::text::pieces_from;
use crate::text::single_arrow;
use crate::text::skip_whitespace;
use crate::text::split_newlines;
use crate::text::string_of;
use crate::text::to_chars;
use crate::text::trim;
use crate::text::trim_range;
use crate::text::trim_start;
use crate::types::pair_views;

verus! {

/// The text between the first two double quotes of `s`.
pub open spec fn quoted(s: Seq<char>) -> Option<Seq<char>> {
    match first_index(s, '"') {
        Some(i) => match first_index(s.skip(i + 1), '"') {
            Some(j) => Some(s.subrange(i + 1, i + 1 + j)),
            None => None,
        },
        None => None,
    }
}

/// A class of the JDK or JRE itself, whose dependencies are not reported.
pub open spec fn is_jdk_class(s: Seq<char>) -> bool {
    ||| "java."@.is_prefix_of(s)
    ||| "javax."@.is_prefix_of(s)
    ||| "jdk."@.is_prefix_of(s)
}

/// The dependency on one `.dot` line `"from" -> "to";`: the line, trimmed,
/// splits on `->` into exactly two parts that each hold a quoted name, and the
/// target is not a JDK class.
pub open spec fn dot_line_dep(line: Seq<char>) -> Option<(Seq<char>, Seq<char>)> {
    let t = trim(line);
    match single_arrow(t) {
        Some(p) => match (quoted(t.take(p)), quoted(t.skip(p + 2))) {
            (Some(a), Some(b)) => if is_jdk_class(b) {
                None
            } else {
                Some((a, b))
            },
            _ => None,
        },
        None => None,
    }
}

/// The dependency on one `-verbose:class` line `from -> to  where`: the line,
/// trimmed, splits on `->` into exactly two parts; the source is the trimmed
/// first part, the target the first word of the second; an empty target or a
/// JDK class gives nothing.
pub open spec fn verbose_line_dep(line: Seq<char>) -> Option<(Seq<char>, Seq<char>)> {
    let t = trim(line);
    match single_arrow(t) {
        Some(p) => {
            let to = first_token(t.skip(p + 2));
            if to.len() == 0 || is_jdk_class(to) {
                None
            } else {
                Some((trim(t.take(p)), to))
            }
        },
        None => None,
    }
}

/// The line parser for one of the two formats.
pub open spec fn line_dep(verbose: bool) -> spec_fn(Seq<char>) -> Option<(Seq<char>, Seq<char>)> {
    if verbose {
        |l: Seq<char>| verbose_line_dep(l)
    } else {
        |l: Seq<char>| dot_line_dep(l)
    }
}

/// The dependencies of a `.dot` file, line by line, in order.
pub open spec fn dot_deps(s: Seq<char>) -> Seq<(Seq<char>, Seq<char>)> {
    split_newlines(s).filter_map(|l: Seq<char>| dot_line_dep(l))
}

/// The dependencies of `-verbose:class` output, line by line, in order.
pub open spec fn verbose_deps(s: Seq<char>) -> Seq<(Seq<char>, Seq<char>)> {
    split_newlines(s).filter_map(|l: Seq<char>| verbose_line_dep(l))
}

/// The bounds of the text between the first two double quotes of `v[lo..hi]`.
fn quoted_range(v: &Vec<char>, lo: usize, hi: usize) -> (r: Option<(usize, usize)>)
    requires
        lo <= hi <= v.len(),
    ensures
        r matches Some(q) ==> lo <= q.0 <= q.1 <= hi && quoted(v@.subrange(lo as int, hi as int))
            == Some(v@.subrange(q.0 as int, q.1 as int)),
        r is None ==> quoted(v@.subrange(lo as int, hi as int)) is None,
{
    let ghost s = v@.subrange(lo as int, hi as int);
    match find_char(v, lo, hi, '"') {
        Some(i) => {
            assert(s.skip(i - lo + 1) =~= v@.subrange(i + 1, hi as int));
            match find_char(v, i + 1, hi, '"') {
                Some(j) => {
                    assert(s.subrange(i - lo + 1, i - lo + 1 + (j - (i + 1))) =~= v@.subrange(
                        i + 1,
                        j as int,
                    ));
                    Some((i + 1, j))
                },
                None => None,
            }
        },
        None => None,
    }
}

/// The characters of the literal prefixes that mark JDK classes.
struct JdkPrefixes {
    java: Vec<char>,
    javax: Vec<char>,
    jdk: Vec<char>,
}

impl JdkPrefixes {
    spec fn ok(&self) -> bool {
        &&& self.java@ == "java."@
        &&& self.javax@ == "javax."@
        &&& self.jdk@ == "jdk."@
    }

    fn new() -> (r: JdkPrefixes)
        ensures
            r.ok(),
    {
        JdkPrefixes { java: to_chars("java."), javax: to_chars("javax."), jdk: to_chars("jdk.") }
    }

    fn matches(&self, v: &Vec<char>, lo: usize, hi: usize) -> (b: bool)
        requires
            self.ok(),
            lo <= hi <= v.len(),
        ensures
            b == is_jdk_class(v@.subrange(lo as int, hi as int)),
    {
        has_prefix(v, lo, hi, &self.java) || has_prefix(v, lo, hi, &self.javax) || has_prefix(
            v,
            lo,
            hi,
            &self.jdk,
        )
    }
}

/// The dependency on the line `v[lo..hi]`, in one of the two formats.
fn line_dependency(v: &Vec<char>, lo: usize, hi: usize, verbose: bool, jdk: &JdkPrefixes) -> (r:
    Option<(String, String)>)
    requires
        lo <= hi <= v.len(),
        jdk.ok(),
    ensures
        r matches Some(d) ==> line_dep(verbose)(v@.subrange(lo as int, hi as int)) == Some(
            (d.0@, d.1@),
        ),
        r is None ==> line_dep(verbose)(v@.subrange(lo as int, hi as int)) is None,
{
    let ghost line = v@.subrange(lo as int, hi as int);
    let (a, b) = trim_range(v, lo, hi);
    let ghost t = v@.subrange(a as int, b as int);
    assert(t == trim(line));
    let p = match find_single_arrow(v, a, b) {
        Some(p) => p,
        None => {
            return None;
        },
    };
    assert(single_arrow(t) == Some(p - a));
    assert(t.take(p - a) =~= v@.subrange(a as int, p as int));
    assert(t.skip(p - a + 2) =~= v@.subrange(p + 2, b as int));
    if verbose {
        let (fa, fb) = trim_range(v, a, p);
        let ts = skip_whitespace(v, p + 2, b);
        let tend = find_token_end(v, ts, b);
        assert(first_token(v@.subrange(p + 2, b as int)) =~= v@.subrange(ts as int, tend as int));
        if tend == ts || jdk.matches(v, ts, tend) {
            None
        } else {
            Some((string_of(v, fa, fb), string_of(v, ts, tend)))
        }
    } else {
        match (quoted_range(v, a, p), quoted_range(v, p + 2, b)) {
            (Some((qa, qb)), Some((ra, rb))) => {
                if jdk.matches(v, ra, rb) {
                    None
                } else {
                    Some((string_of(v, qa, qb), string_of(v, ra, rb)))
                }
            },
            _ => None,
        }
    }
}

/// Appends the dependency of every line of `v`, in order.
fn parse_lines(v: &Vec<char>, verbose: bool, out: &mut Vec<(String, String)>)
    ensures
        pair_views(final(out)@) == pair_views(old(out)@) + split_newlines(v@).filter_map(
            line_dep(verbose),
        ),
{
    let jdk = JdkPrefixes::new();
    let ghost f = line_dep(verbose);
    let ghost start = pair_views(out@);
    let ghost mut done: Seq<Seq<char>> = Seq::empty();
    let mut pos: usize = 0;
    let mut more = true;
    assert(done.filter_map(f) =~= Seq::<(Seq<char>, Seq<char>)>::empty());
    assert(pair_views(out@) =~= start + done.filter_map(f));
    while more
        invariant
            jdk.ok(),
            f == line_dep(verbose),
            0 <= pos <= v.len(),
            more ==> split_newlines(v@) == done + pieces_from(v@, pos as int),
            !more ==> split_newlines(v@) == done,
            pair_views(out@) == start + done.filter_map(f),
        decreases v.len() - pos + if more {
            1int
        } else {
            0int
        },
    {
        let e = find_line_end(v, pos);
        proof {
            lemma_line_end_bounds(v@, pos as int);
        }
        let ghost line = v@.subrange(pos as int, e as int);
        let d = line_dependency(v, pos, e, verbose, &jdk);
        let ghost before = out@;
        if let Some(pair) = d {
            out.push(pair);
        }
        proof {
            let nd = done.push(line);
            assert(nd.drop_last() =~= done);
            assert(nd.last() == line);
            if d is Some {
                assert(pair_views(out@) =~= pair_views(before).push(f(line)->0));
            } else {
                assert(pair_views(out@) =~= pair_views(before));
            }
            assert(pair_views(out@) =~= start + nd.filter_map(f));
            if e >= v.len() {
                assert(pieces_from(v@, pos as int) =~= seq![v@.subrange(pos as int, v.len() as int)]);
                assert(split_newlines(v@) =~= nd);
            } else {
                assert(pieces_from(v@, pos as int) =~= seq![line] + pieces_from(v@, e + 1));
                assert(split_newlines(v@) =~= nd + pieces_from(v@, e + 1));
            }
            done = nd;
        }
        if e >= v.len() {
            more = false;
        } else {
            pos = e + 1;
        }
    }
}

/// Parses jdeps `.dot` output, whose lines look like `"com.example.Foo" -> "com.example.Bar";`,
/// appending each dependency `(from, to)` whose target is not a JDK class.
pub fn parse_dot_deps(dot_content: &str, deps: &mut Vec<(String, String)>)
    ensures
        pair_views(final(deps)@) == pair_views(old(deps)@) + dot_deps(dot_content@),
{
    let v = to_chars(dot_content);
    parse_lines(&v, false, deps);
    assert(line_dep(false) == (|l: Seq<char>| dot_line_dep(l)));
}

/// Parses `jdeps -verbose:class` text output, whose lines look like
/// `com.example.Foo  -> com.example.Bar  classes`.
pub fn parse_jdeps_verbose_output(stdout: &str) -> (deps: Vec<(String, String)>)
    ensures
        pair_views(deps@) == verbose_deps(stdout@),
{
    let v = to_chars(stdout);
    let mut deps: Vec<(String, String)> = Vec::new();
    parse_lines(&v, true, &mut deps);
    assert(line_dep(true) == (|l: Seq<char>| verbose_line_dep(l)));
    assert(pair_views(deps@) =~= verbose_deps(stdout@));
    deps
}

/// The text between the first two double quotes of `s`.
pub fn extract_quoted(s: &str) -> (r: Option<&str>)
    ensures
        r matches Some(q) ==> quoted(s@) == Some(q@),
        r is None ==> quoted(s@) is None,
{
    let v = to_chars(s);
    assert(v@.subrange(0, v.len() as int) =~= v@);
    match quoted_range(&v, 0, v.len()) {
        Some((a, b)) => Some(s.substring_char(a, b)),
        None => None,
    }
}

} // verus!
