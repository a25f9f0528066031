//! Whitespace and the tokens of a text.
use vstd::prelude::*;
use vstd::string::StringExecFns;

verus! {

/// The characters with the Unicode `White_Space` property.
pub open spec fn white_space(c: char) -> bool {
    ('\u{9}' <= c && c <= '\u{D}') || c == ' ' || c == '\u{85}' || c == '\u{A0}'
        || c == '\u{1680}' || ('\u{2000}' <= c && c <= '\u{200A}') || c == '\u{2028}'
        || c == '\u{2029}' || c == '\u{202F}' || c == '\u{205F}' || c == '\u{3000}'
}

/// Length of the run of non-whitespace characters that starts `s`.
pub open spec fn run_len(s: Seq<char>) -> nat
    decreases s.len(),
{
    if s.len() == 0 || white_space(s[0]) {
        0
    } else {
        1 + run_len(s.drop_first())
    }
}

/// The tokens of `s`: its maximal runs of non-whitespace characters, left to right.
pub open spec fn words(s: Seq<char>) -> Seq<Seq<char>>
    decreases s.len() via words_decreases
{
    if s.len() == 0 {
        seq![]
    } else if white_space(s[0]) {
        words(s.drop_first())
    } else {
        let k = run_len(s);
        seq![s.take(k as int)] + words(s.skip(k as int))
    }
}

#[via_fn]
proof fn words_decreases(s: Seq<char>) {
    if s.len() > 0 && !white_space(s[0]) {
        lemma_run_len_bounds(s);
    }
}

proof fn lemma_run_len_bounds(s: Seq<char>)
    ensures
        run_len(s) <= s.len(),
        s.len() > 0 && !white_space(s[0]) ==> run_len(s) >= 1,
    decreases s.len(),
{
    if s.len() > 0 && !white_space(s[0]) {
        lemma_run_len_bounds(s.drop_first());
    }
}

/// Relies on `char::is_whitespace`: true exactly for the characters with the
/// Unicode `White_Space` property.
#[verifier::external_body]
fn is_whitespace(c: char) -> (r: bool)
    ensures
        r == white_space(c),
{
    c.is_whitespace()
}

/// The views of a sequence of strings.
pub open spec fn views(v: Seq<String>) -> Seq<Seq<char>> {
    v.map_values(|t: String| t@)
}

proof fn lemma_run_step(s: Seq<char>, i: int)
    requires
        0 <= i < s.len(),
        !white_space(s[i]),
    ensures
        run_len(s.skip(i)) == 1 + run_len(s.skip(i + 1)),
{
    assert(s.skip(i).drop_first() =~= s.skip(i + 1));
}

proof fn lemma_words_skip_space(s: Seq<char>, i: int)
    requires
        0 <= i < s.len(),
        white_space(s[i]),
    ensures
        words(s.skip(i)) == words(s.skip(i + 1)),
{
    assert(s.skip(i).drop_first() =~= s.skip(i + 1));
}

/// A run of non-whitespace characters that is cut by a whitespace character
/// ends where that character stands.
proof fn lemma_run_len_cut(a: Seq<char>, c: char, b: Seq<char>)
    requires
        white_space(c),
    ensures
        run_len(a + seq![c] + b) == run_len(a),
        run_len(a) <= a.len(),
    decreases a.len(),
{
    let s = a + seq![c] + b;
    if a.len() == 0 {
        assert(s[0] == c);
    } else {
        assert(s[0] == a[0]);
        if !white_space(a[0]) {
            assert(s.drop_first() =~= a.drop_first() + seq![c] + b);
            lemma_run_len_cut(a.drop_first(), c, b);
        }
    }
}

/// A whitespace character separates tokens: the tokens of `a`, a whitespace
/// character and `b`, in that order, are the tokens of `a` followed by those of `b`.
/// In particular a line break is no different from any other run of whitespace.
pub proof fn lemma_words_separated(a: Seq<char>, c: char, b: Seq<char>)
    requires
        white_space(c),
    ensures
        words(a + seq![c] + b) == words(a) + words(b),
    decreases a.len(),
{
    let s = a + seq![c] + b;
    if a.len() == 0 {
        assert(s[0] == c);
        assert(s.drop_first() =~= b);
        assert(words(a) =~= seq![]);
        assert(words(a) + words(b) =~= words(b));
    } else if white_space(a[0]) {
        assert(s[0] == a[0]);
        assert(s.drop_first() =~= a.drop_first() + seq![c] + b);
        lemma_words_separated(a.drop_first(), c, b);
    } else {
        assert(s[0] == a[0]);
        lemma_run_len_cut(a, c, b);
        let k = run_len(a);
        lemma_run_len_bounds(a);
        assert(s.take(k as int) =~= a.take(k as int));
        assert(s.skip(k as int) =~= a.skip(k as int) + seq![c] + b);
        lemma_words_separated(a.skip(k as int), c, b);
        assert(words(a) == seq![a.take(k as int)] + words(a.skip(k as int)));
        assert(words(s) =~= words(a) + words(b));
    }
}

/// Leading whitespace adds no token.
proof fn lemma_words_leading_space(sep: Seq<char>, b: Seq<char>)
    requires
        forall|i: int| 0 <= i < sep.len() ==> white_space(#[trigger] sep[i]),
    ensures
        words(sep + b) == words(b),
    decreases sep.len(),
{
    if sep.len() == 0 {
        assert(sep + b =~= b);
    } else {
        let s = sep + b;
        assert(s[0] == sep[0]);
        assert(s.drop_first() =~= sep.drop_first() + b);
        assert forall|i: int| 0 <= i < sep.drop_first().len() implies white_space(
            #[trigger] sep.drop_first()[i],
        ) by {
            assert(sep.drop_first()[i] == sep[i + 1]);
        }
        lemma_words_leading_space(sep.drop_first(), b);
    }
}

/// Every run of whitespace separates tokens alike, whatever characters it is
/// made of (spaces, tabs, line breaks, blank lines): the tokens of `a`, the
/// run `sep` and `b` are the tokens of `a` followed by those of `b`.
pub proof fn lemma_whitespace_runs_equivalent(a: Seq<char>, sep: Seq<char>, b: Seq<char>)
    requires
        sep.len() > 0,
        forall|i: int| 0 <= i < sep.len() ==> white_space(#[trigger] sep[i]),
    ensures
        words(a + sep + b) == words(a) + words(b),
{
    let rest = sep.drop_first();
    assert(a + sep + b =~= a + seq![sep[0]] + (rest + b));
    lemma_words_separated(a, sep[0], rest + b);
    assert forall|i: int| 0 <= i < rest.len() implies white_space(#[trigger] rest[i]) by {
        assert(rest[i] == sep[i + 1]);
    }
    lemma_words_leading_space(rest, b);
}

/// The tokens of `line`, left to right.
pub fn split_tokens(line: &str) -> (r: Vec<String>)
    ensures
        views(r@) == words(line@),
{
    let ghost s = line@;
    let n = line.unicode_len();
    let mut r: Vec<String> = Vec::new();
    let mut i: usize = 0;
    proof {
        assert(s.skip(0) =~= s);
        assert(views(r@) =~= seq![]);
        assert(views(r@) + words(s) =~= words(s));
    }
    while i < n
        invariant
            n == s.len(),
            s == line@,
            i <= n,
            views(r@) + words(s.skip(i as int)) == words(s),
        decreases n - i,
    {
        let c = line.get_char(i);
        if is_whitespace(c) {
            proof {
                lemma_words_skip_space(s, i as int);
            }
            i = i + 1;
        } else {
            let start = i;
            i = i + 1;
            proof {
                lemma_run_step(s, start as int);
            }
            while i < n
                invariant
                    n == s.len(),
                    s == line@,
                    start < i <= n,
                    run_len(s.skip(start as int)) == (i - start) + run_len(s.skip(i as int)),
                ensures
                    start < i <= n,
                    run_len(s.skip(start as int)) == (i - start) + run_len(s.skip(i as int)),
                    i == n || white_space(s[i as int]),
                decreases n - i,
            {
                let d = line.get_char(i);
                if is_whitespace(d) {
                    break;
                }
                proof {
                    lemma_run_step(s, i as int);
                }
                i = i + 1;
            }
            let ghost t = s.skip(start as int);
            proof {
                if i < n {
                    assert(s.skip(i as int)[0] == s[i as int]);
                }
                assert(run_len(s.skip(i as int)) == 0);
                assert(t[0] == s[start as int]);
                assert(words(t) == seq![t.take((i - start) as int)] + words(t.skip((i - start) as int)));
                assert(t.take((i - start) as int) =~= s.subrange(start as int, i as int));
                assert(t.skip((i - start) as int) =~= s.skip(i as int));
            }
            let tok = line.substring_char(start, i);
            let ghost before = r@;
            r.push(String::from_str(tok));
            proof {
                assert(views(r@) =~= views(before) + seq![s.subrange(start as int, i as int)]);
            }
        }
    }
    proof {
        assert(s.skip(n as int) =~= seq![]);
        assert(views(r@) + words(s.skip(i as int)) =~= views(r@));
    }
    r
}

} // verus!
