//! Embedded code examples ("doctests"): normalization of a captured
//! fragment, assembly of the compilable source text, substitution of
//! the compiler-invocation template, and the verify-phase bookkeeping
//! that decides which fragment runs next.

use crate::text::{
    spec_trim, spec_trim_start, spec_strip_prefix, spec_starts_with, spec_lines, spec_join,
    str_views, views_of, chars_of, string_of, trim, starts_with, strip_prefix_if,
    split_lines, copy_chars, extend_chars, subrange_of, replace_chars,
};
use vstd::prelude::*;

verus! {

/// One captured code fragment, normalized.
#[derive(Debug)]
pub struct Doctest {
    /// The text handed to the compiler: visible lines and hidden
    /// marker-stripped lines, in their original order.
    pub code: String,
    /// Whether the compile step wraps the text in an entry point.
    pub add_main: bool,
    /// Payloads of the `@include` directives, in order.
    pub includes: Vec<String>,
    /// The text shown to the reader: the visible lines only.
    pub display_code: String,
}

/// Assertion macros compiled in front of every fragment: on failure
/// they print a diagnostic to the error stream and exit non-zero.
pub const PREPENDED_CODE: &'static str = r#"
#include <iostream>
#include <stdlib.h>

#ifdef ASSERT
#undef ASSERT
#endif

#define ASSERT_EQ(A, B) if (A != B) { std::cerr << "Assertion failed: '" << #A << "' != '"<< #B << "'" << std::endl; exit(1); }
#define ASSERT_NE(A, B) if (A == B) { std::cerr << "Assertion failed: '" << #A << "' == '"<< #B << "'" << std::endl; exit(1); }
#define ASSERT_FALSE(A) if (A) { std::cerr << "Assertion failed: '" << #A << "' is true" << std::endl; exit(1); }
#define ASSERT_GT(A, B) if (A <= B) { std::cerr << "Assertion failed: '" << #A << "' <= '"<< #B << "'" << std::endl; exit(1); }
#define ASSERT_LT(A, B) if (A >= B) { std::cerr << "Assertion failed: '" << #A << "' >= '"<< #B << "'" << std::endl; exit(1); }
#define ASSERT_GE(A, B) if (A < B) { std::cerr << "Assertion failed: '" << #A << "' < '"<< #B << "'" << std::endl; exit(1); }
#define ASSERT_LE(A, B) if (A > B) { std::cerr << "Assertion failed: '" << #A << "' > '"<< #B << "'" << std::endl; exit(1); }

#define ASSERT(A) if (!(A)) { std::cerr << "Assertion failed: '" << #A << "' is false" << std::endl; exit(1); }
"#;

/// A line whose first non-space character is the escape marker.
pub open spec fn spec_is_marker_line(l: Seq<char>) -> bool {
    spec_starts_with(spec_trim(l), "@"@)
}

/// A marker line carrying an include directive.
pub open spec fn spec_is_include_line(l: Seq<char>) -> bool {
    spec_starts_with(spec_trim(l), "@include"@)
}

/// The trimmed payload after the include keyword.
pub open spec fn spec_include_payload(l: Seq<char>) -> Seq<char> {
    spec_trim(spec_strip_prefix(spec_trim(l), "@include"@))
}

/// A hidden line with its marker removed: leading whitespace kept, the
/// first `@` dropped.
pub open spec fn spec_strip_marker(l: Seq<char>) -> Seq<char> {
    let i = l.len() - spec_trim_start(l).len();
    l.take(i as int) + l.skip(i + 1)
}

/// The normalized form of a fragment: its compiled lines, its visible
/// lines, and the collected include payloads, each in original order.
pub ghost struct DoctestV {
    pub compiled: Seq<Seq<char>>,
    pub display: Seq<Seq<char>>,
    pub includes: Seq<Seq<char>>,
}

/// Normalization over the fragment's lines: include directives are
/// collected, hidden lines go to the compiled text only, every other
/// line to both, order kept.
pub open spec fn spec_normalize(lines: Seq<Seq<char>>) -> DoctestV
    decreases lines.len(),
{
    if lines.len() == 0 {
        DoctestV { compiled: Seq::empty(), display: Seq::empty(), includes: Seq::empty() }
    } else {
        let rest = spec_normalize(lines.drop_first());
        let l = lines[0];
        if spec_is_include_line(l) {
            DoctestV { includes: seq![spec_include_payload(l)] + rest.includes, ..rest }
        } else if spec_is_marker_line(l) {
            DoctestV { compiled: seq![spec_strip_marker(l)] + rest.compiled, ..rest }
        } else {
            DoctestV {
                compiled: seq![l] + rest.compiled,
                display: seq![l] + rest.display,
                ..rest
            }
        }
    }
}

/// The normalized form of a whole fragment text.
pub open spec fn spec_doctest_of(code: Seq<char>) -> DoctestV {
    spec_normalize(spec_lines(code))
}

impl Doctest {
    /// Normalize a raw fragment.
    pub fn new(code: String, add_main: bool) -> (r: Doctest)
        ensures
            r.code@ == spec_join(spec_doctest_of(code@).compiled, '\n'),
            r.display_code@ == spec_join(spec_doctest_of(code@).display, '\n'),
            str_views(r.includes@) == spec_doctest_of(code@).includes,
            r.add_main == add_main,
    {
        let lines = split_lines(&chars_of(code.as_str()));
        let ghost ldv = views_of(lines@);
        let marker = chars_of("@");
        let inc_marker = chars_of("@include");
        let mut compiled: Vec<Vec<char>> = Vec::new();
        let mut display: Vec<Vec<char>> = Vec::new();
        let mut includes: Vec<Vec<char>> = Vec::new();
        let mut i: usize = 0;
        proof {
            assert(ldv.skip(0) =~= ldv);
        }
        while i < lines.len()
            invariant
                i <= lines@.len(),
                ldv == views_of(lines@),
                ldv.len() == lines@.len(),
                marker@ == "@"@,
                inc_marker@ == "@include"@,
                spec_normalize(ldv).compiled == views_of(compiled@) + spec_normalize(
                    ldv.skip(i as int),
                ).compiled,
                spec_normalize(ldv).display == views_of(display@) + spec_normalize(
                    ldv.skip(i as int),
                ).display,
                spec_normalize(ldv).includes == views_of(includes@) + spec_normalize(
                    ldv.skip(i as int),
                ).includes,
            decreases lines@.len() - i,
        {
            let ghost rem = ldv.skip(i as int);
            let ghost c0 = views_of(compiled@);
            let ghost d0 = views_of(display@);
            let ghost inc0 = views_of(includes@);
            proof {
                assert(rem[0] == ldv[i as int]);
                assert(rem.drop_first() =~= ldv.skip(i + 1));
            }
            let t = trim(&lines[i]);
            if starts_with(&t, &inc_marker) {
                includes.push(trim(&strip_prefix_if(&t, &inc_marker)));
                proof {
                    assert(views_of(includes@) =~= inc0 + seq![spec_include_payload(rem[0])]);
                }
            } else if starts_with(&t, &marker) {
                let stripped = strip_marker_line(&lines[i]);
                compiled.push(stripped);
                proof {
                    assert(views_of(compiled@) =~= c0 + seq![spec_strip_marker(rem[0])]);
                }
            } else {
                compiled.push(copy_chars(&lines[i]));
                display.push(copy_chars(&lines[i]));
                proof {
                    assert(views_of(compiled@) =~= c0 + seq![rem[0]]);
                    assert(views_of(display@) =~= d0 + seq![rem[0]]);
                }
            }
            i = i + 1;
        }
        proof {
            assert(views_of(compiled@) =~= views_of(compiled@) + spec_normalize(
                ldv.skip(i as int),
            ).compiled);
            assert(views_of(display@) =~= views_of(display@) + spec_normalize(
                ldv.skip(i as int),
            ).display);
            assert(views_of(includes@) =~= views_of(includes@) + spec_normalize(
                ldv.skip(i as int),
            ).includes);
        }
        let code_text = crate::text::join_char(&compiled, '\n');
        let display_text = crate::text::join_char(&display, '\n');
        let mut out_includes: Vec<String> = Vec::new();
        let mut k: usize = 0;
        while k < includes.len()
            invariant
                k <= includes@.len(),
                out_includes@.len() == k,
                forall|j: int| 0 <= j < k ==> out_includes@[j]@ == includes@[j]@,
            decreases includes@.len() - k,
        {
            out_includes.push(string_of(&includes[k]));
            k = k + 1;
        }
        proof {
            assert forall|j: int| 0 <= j < out_includes@.len() implies str_views(out_includes@)[j]
                == views_of(includes@)[j] by {
                assert(out_includes@[j]@ == includes@[j]@);
            }
            assert(str_views(out_includes@) =~= views_of(includes@));
        }
        Doctest {
            code: string_of(&code_text),
            add_main,
            includes: out_includes,
            display_code: string_of(&display_text),
        }
    }
}

/// Remove the escape marker from a hidden line, keeping its leading
/// whitespace.
fn strip_marker_line(l: &Vec<char>) -> (r: Vec<char>)
    requires
        spec_is_marker_line(l@),
    ensures
        r@ == spec_strip_marker(l@),
{
    let mut i: usize = 0;
    while i < l.len() && crate::text::exec_is_space(l[i])
        invariant
            i <= l@.len(),
            forall|j: int| 0 <= j < i ==> crate::text::is_space(l@[j]),
        decreases l@.len() - i,
    {
        i = i + 1;
    }
    proof {
        lemma_marker_offset(l@, i as int);
    }
    let mut r = subrange_of(l, 0, i);
    let tail = subrange_of(l, i + 1, l.len());
    extend_chars(&mut r, &tail);
    proof {
        assert(r@ =~= l@.take(i as int) + l@.skip(i + 1));
    }
    r
}

proof fn lemma_marker_offset(l: Seq<char>, i: int)
    requires
        spec_is_marker_line(l),
        0 <= i <= l.len(),
        forall|j: int| 0 <= j < i ==> crate::text::is_space(l[j]),
        i == l.len() || !crate::text::is_space(l[i]),
    ensures
        i < l.len(),
        i == l.len() - spec_trim_start(l).len(),
    decreases i,
{
    reveal_strlit("@");
    lemma_trim_start_keeps(l, i);
    assert(spec_trim_start(l).len() > 0) by {
        lemma_trim_end_len(spec_trim_start(l));
    }
}

proof fn lemma_trim_start_keeps(l: Seq<char>, i: int)
    requires
        0 <= i <= l.len(),
        forall|j: int| 0 <= j < i ==> crate::text::is_space(l[j]),
        i == l.len() || !crate::text::is_space(l[i]),
    ensures
        spec_trim_start(l) == l.skip(i),
    decreases i,
{
    if i > 0 {
        assert(crate::text::is_space(l[0]));
        assert(l.drop_first() =~= l.skip(1));
        lemma_trim_start_keeps(l.skip(1), i - 1);
        assert(l.skip(1).skip(i - 1) =~= l.skip(i));
    } else {
        assert(l.skip(0) =~= l);
    }
}

proof fn lemma_trim_end_len(s: Seq<char>)
    ensures
        crate::text::spec_trim_end(s).len() <= s.len(),
        s.len() > 0 && !crate::text::is_space(s[0]) ==> crate::text::spec_trim_end(s).len() > 0,
    decreases s.len(),
{
    if s.len() > 0 && crate::text::is_space(s[s.len() - 1]) {
        lemma_trim_end_len(s.drop_last());
    }
}

/// The source text handed to the compiler for one fragment: the
/// include directives, the assertion preamble, and the compiled text,
/// wrapped in an entry point when the fragment asked for one.
pub open spec fn spec_full_source(
    includes: Seq<Seq<char>>,
    code: Seq<char>,
    add_main: bool,
) -> Seq<char> {
    let inc_text = spec_join(
        includes.map_values(|i: Seq<char>| "#include "@ + i),
        '\n',
    );
    if add_main {
        inc_text + PREPENDED_CODE@ + "\nint main() {\n"@ + code + "\n return 0;}"@
    } else {
        inc_text + PREPENDED_CODE@ + code
    }
}

impl Doctest {
    /// Assemble the compilable source text of this fragment.
    pub fn full_source(&self) -> (r: String)
        ensures
            r@ == spec_full_source(str_views(self.includes@), self.code@, self.add_main),
    {
        let mut parts: Vec<Vec<char>> = Vec::new();
        let prefix = chars_of("#include ");
        let mut k: usize = 0;
        while k < self.includes.len()
            invariant
                k <= self.includes@.len(),
                prefix@ == "#include "@,
                parts@.len() == k,
                forall|j: int| 0 <= j < k ==> parts@[j]@ == "#include "@ + self.includes@[j]@,
            decreases self.includes@.len() - k,
        {
            let mut line = copy_chars(&prefix);
            let inc = chars_of(self.includes[k].as_str());
            extend_chars(&mut line, &inc);
            parts.push(line);
            k = k + 1;
        }
        let inc_text = crate::text::join_char(&parts, '\n');
        proof {
            let target = str_views(self.includes@).map_values(|i: Seq<char>| "#include "@ + i);
            assert forall|j: int| 0 <= j < parts@.len() implies views_of(parts@)[j] == target[j] by {
                assert(str_views(self.includes@)[j] == self.includes@[j]@);
            }
            assert(views_of(parts@) =~= target);
        }
        let mut r = inc_text;
        let pre = chars_of(PREPENDED_CODE);
        extend_chars(&mut r, &pre);
        if self.add_main {
            let open_main = chars_of("\nint main() {\n");
            extend_chars(&mut r, &open_main);
            let body = chars_of(self.code.as_str());
            extend_chars(&mut r, &body);
            let close_main = chars_of("\n return 0;}");
            extend_chars(&mut r, &close_main);
            proof {
                assert(r@ =~= spec_full_source(
                    str_views(self.includes@),
                    self.code@,
                    self.add_main,
                ));
            }
        } else {
            let body = chars_of(self.code.as_str());
            extend_chars(&mut r, &body);
            proof {
                assert(r@ =~= spec_full_source(
                    str_views(self.includes@),
                    self.code@,
                    self.add_main,
                ));
            }
        }
        string_of(&r)
    }
}

/// The compiler invocation for one fragment: the configured words
/// joined with spaces, the file and output placeholders substituted.
pub open spec fn spec_invocation(
    words: Seq<Seq<char>>,
    file: Seq<char>,
    out: Seq<char>,
) -> Seq<char> {
    crate::text::spec_replace(
        crate::text::spec_replace(spec_join(words, ' '), "{file}"@, file),
        "{out}"@,
        out,
    )
}

/// Build the shell command that compiles one fragment: join the
/// configured invocation words and substitute the input and output
/// paths for their placeholders.
pub fn build_invocation(words: &Vec<String>, file: &str, out: &str) -> (r: String)
    ensures
        r@ == spec_invocation(str_views(words@), file@, out@),
{
    let mut parts: Vec<Vec<char>> = Vec::new();
    let mut k: usize = 0;
    while k < words.len()
        invariant
            k <= words@.len(),
            parts@.len() == k,
            forall|j: int| 0 <= j < k ==> parts@[j]@ == words@[j]@,
        decreases words@.len() - k,
    {
        parts.push(chars_of(words[k].as_str()));
        k = k + 1;
    }
    let joined = crate::text::join_char(&parts, ' ');
    proof {
        assert forall|j: int| 0 <= j < parts@.len() implies views_of(parts@)[j] == str_views(
            words@,
        )[j] by {
            assert(parts@[j]@ == words@[j]@);
        }
        assert(views_of(parts@) =~= str_views(words@));
    }
    let fpat = chars_of("{file}");
    let opat = chars_of("{out}");
    proof {
        reveal_strlit("{file}");
        reveal_strlit("{out}");
    }
    let step1 = replace_chars(&joined, &fpat, &chars_of(file));
    let step2 = replace_chars(&step1, &opat, &chars_of(out));
    string_of(&step2)
}

/// Which fragment of the queue the verify phase works on next.
///
/// A fatal compile failure halts the whole phase; a run failure only
/// moves past the one fragment.
pub struct VerifyPhase {
    /// Index of the next fragment to verify.
    pub next: usize,
    /// How many fragments the queue holds.
    pub total: usize,
    /// Whether a fatal compile failure has halted the phase.
    pub halted: bool,
}

/// The fragment the phase works on, if any.
pub open spec fn spec_current(v: VerifyPhase) -> Option<int> {
    if v.halted || v.next >= v.total {
        None
    } else {
        Some(v.next as int)
    }
}

impl VerifyPhase {
    /// Start the phase over a queue of `total` fragments.
    pub fn new(total: usize) -> (r: VerifyPhase)
        ensures
            r.next == 0,
            r.total == total,
            !r.halted,
    {
        VerifyPhase { next: 0, total, halted: false }
    }

    /// The index of the fragment to compile and run next, in discovery
    /// order; `None` once the phase is done or halted.
    pub fn current(&self) -> (r: Option<usize>)
        ensures
            r == match spec_current(*self) {
                None => None::<usize>,
                Some(i) => Some(i as usize),
            },
    {
        if self.halted || self.next >= self.total {
            None
        } else {
            Some(self.next)
        }
    }

    /// A compiler exit with non-zero status: fatal, the whole phase
    /// halts and no later fragment is verified.
    pub fn compile_failed(&mut self)
        ensures
            final(self).halted,
            final(self).next == old(self).next,
            final(self).total == old(self).total,
            spec_current(*final(self)) is None,
    {
        self.halted = true;
    }

    /// The fragment was compiled, and run if asked for; whatever the
    /// run's outcome, the phase moves to the next fragment.
    pub fn advance(&mut self)
        requires
            !old(self).halted,
            old(self).next < old(self).total,
        ensures
            final(self).next == old(self).next + 1,
            final(self).total == old(self).total,
            !final(self).halted,
            old(self).next + 1 < old(self).total ==> spec_current(*final(self)) == Some(
                old(self).next + 1,
            ),
    {
        self.next = self.next + 1;
    }
}

/// A halted phase never yields another fragment: a fatal compile
/// failure stops the processing of every queued fragment after it.
pub proof fn lemma_halted_phase_yields_nothing(v: VerifyPhase)
    requires
        v.halted,
    ensures
        spec_current(v) is None,
{
}

} // verus!
