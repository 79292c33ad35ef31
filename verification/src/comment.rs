//! Parsing of structured documentation comments.
//!
//! A comment block in one of the recognized lexical forms (`///`,
//! `///<`, `//<` line markers, `/** ... */` blocks, `/**< ... */`
//! single-line trailing blocks) is normalized into a brief line, a
//! description body, and an optional list of implementation references
//! given by a `\impl{...}` directive.

use crate::text::{
    spec_trim, spec_strip_prefix, spec_strip_suffix, spec_strip_leading, spec_strip_all_suffix,
    spec_starts_with, spec_ends_with, spec_find, spec_split, spec_lines, spec_join, spec_join_rest,
    chars_of, string_of, trim, starts_with, ends_with, eq_chars, strip_prefix_if, strip_suffix_if,
    strip_leading, strip_all_suffix, split_lines, split_at_char, find_from, lemma_find_char,
    copy_chars, tail_lines, join_char, subrange_of, views_of, str_views, strip_cr,
    spec_trim_start, spec_trim_end,
};
use vstd::prelude::*;

verus! {

/// A parsed documentation comment.
#[derive(Clone, Debug, PartialEq, Eq)]
pub struct Comment {
    /// One-line summary; never holds a newline.
    pub brief: String,
    /// Longer free-text body; blank lines filtered out.
    pub description: String,
    /// Payload of the last `\impl{...}` directive, split on commas.
    pub impl_refs: Option<Vec<String>>,
}

/// The reserved hidden-doc sentinel: such a block produces no comment
/// at all.
pub open spec fn spec_is_hidden(s: Seq<char>) -> bool {
    spec_trim(s) == "/// #[doc(hidden)]"@ || spec_trim(s) == "/**< #[doc(hidden)]*/"@
}

/// A single-line trailing block `/**< ... */`.
pub open spec fn spec_is_trailing_block(s: Seq<char>) -> bool {
    spec_starts_with(spec_trim(s), "/**<"@)
}

/// The brief of a trailing block: everything between the opening
/// marker and the closing fence, trimmed.
pub open spec fn spec_trailing_brief(s: Seq<char>) -> Seq<char> {
    spec_trim(spec_strip_suffix(spec_strip_prefix(spec_trim(s), "/**<"@), "*/"@))
}

/// A multi-line block comment `/** ... */`.
pub open spec fn spec_is_block(s: Seq<char>) -> bool {
    spec_starts_with(spec_trim(s), "/**"@)
}

/// A content line of a block comment, with the closing fence and any
/// leading asterisks removed.
pub open spec fn spec_block_end_clean(t: Seq<char>) -> Seq<char> {
    spec_trim(spec_strip_leading(spec_strip_all_suffix(t, "*/"@), '*'))
}

/// An interior line of a block comment, with leading asterisks and
/// slashes removed.
pub open spec fn spec_block_mid_clean(t: Seq<char>) -> Seq<char> {
    spec_trim(spec_strip_leading(spec_strip_leading(t, '*'), '/'))
}

/// Content lines of a block comment: every line after the opening one
/// up to the line carrying the closing fence, each stripped of its
/// marker decoration and trimmed.
pub open spec fn spec_block_collect(ls: Seq<Seq<char>>) -> Seq<Seq<char>>
    decreases ls.len(),
{
    if ls.len() == 0 {
        Seq::empty()
    } else {
        let t = spec_trim(ls[0]);
        if spec_ends_with(t, "*/"@) {
            let w = spec_block_end_clean(t);
            if w.len() > 0 {
                seq![w]
            } else {
                Seq::empty()
            }
        } else {
            seq![spec_block_mid_clean(t)] + spec_block_collect(ls.drop_first())
        }
    }
}

/// A line-marker line with its marker stripped and trimmed; the
/// trailing-member markers take precedence over the plain marker.
pub open spec fn spec_clean_line(l: Seq<char>) -> Seq<char> {
    let t = spec_trim(l);
    if spec_starts_with(t, "///<"@) {
        spec_trim(spec_strip_prefix(t, "///<"@))
    } else if spec_starts_with(t, "//<"@) {
        spec_trim(spec_strip_prefix(t, "//<"@))
    } else {
        spec_trim(spec_strip_prefix(t, "///"@))
    }
}

/// Everything after the first line; empty when there is none.
pub open spec fn spec_after_first(ls: Seq<Seq<char>>) -> Seq<Seq<char>> {
    if ls.len() == 0 {
        Seq::empty()
    } else {
        ls.drop_first()
    }
}

/// The non-empty lines, in order.
pub open spec fn spec_nonempty_lines(ls: Seq<Seq<char>>) -> Seq<Seq<char>>
    decreases ls.len(),
{
    if ls.len() == 0 {
        Seq::empty()
    } else if ls[0].len() > 0 {
        seq![ls[0]] + spec_nonempty_lines(ls.drop_first())
    } else {
        spec_nonempty_lines(ls.drop_first())
    }
}

/// The leading run of non-blank lines, which the brief of a
/// line-marker comment consumes.
pub open spec fn spec_brief_prefix(ls: Seq<Seq<char>>) -> Seq<Seq<char>>
    decreases ls.len(),
{
    if ls.len() > 0 && ls[0].len() > 0 {
        seq![ls[0]] + spec_brief_prefix(ls.drop_first())
    } else {
        Seq::empty()
    }
}

/// A description line carrying an implementation-reference directive.
pub open spec fn spec_is_impl_line(l: Seq<char>) -> bool {
    spec_starts_with(l, "\\impl{"@)
}

/// The references of a directive line: the payload up to the matching
/// brace, split on commas, each entry trimmed.
pub open spec fn spec_impl_refs_of(l: Seq<char>) -> Seq<Seq<char>> {
    let p = spec_strip_prefix(l, "\\impl{"@);
    let body = match spec_find(p, '}') {
        None => p,
        Some(i) => if 0 <= i <= p.len() {
            p.take(i)
        } else {
            p
        },
    };
    spec_split(body, ',').map_values(|x: Seq<char>| spec_trim(x))
}

/// The directive that wins over a sequence of description lines: the
/// last one in order, starting from `acc`.
pub open spec fn spec_impls_from(ls: Seq<Seq<char>>, acc: Option<Seq<Seq<char>>>) -> Option<
    Seq<Seq<char>>,
>
    decreases ls.len(),
{
    if ls.len() == 0 {
        acc
    } else {
        spec_impls_from(
            ls.drop_first(),
            if spec_is_impl_line(ls[0]) {
                Some(spec_impl_refs_of(ls[0]))
            } else {
                acc
            },
        )
    }
}

/// The description lines: directive lines excluded.
pub open spec fn spec_desc_lines(ls: Seq<Seq<char>>) -> Seq<Seq<char>>
    decreases ls.len(),
{
    if ls.len() == 0 {
        Seq::empty()
    } else if spec_is_impl_line(ls[0]) {
        spec_desc_lines(ls.drop_first())
    } else {
        seq![ls[0]] + spec_desc_lines(ls.drop_first())
    }
}

/// All content lines of a line-marker comment, cleaned.
pub open spec fn spec_line_cleaned(s: Seq<char>) -> Seq<Seq<char>> {
    spec_lines(s).map_values(|l: Seq<char>| spec_clean_line(l))
}

/// The cleaned, filtered content lines that brief and description are
/// drawn from, for either multi-line form.
pub open spec fn spec_rest_lines(s: Seq<char>) -> Seq<Seq<char>> {
    if spec_is_block(s) {
        let filtered = spec_nonempty_lines(spec_block_collect(spec_after_first(spec_lines(s))));
        if filtered.len() > 0 {
            filtered.drop_first()
        } else {
            filtered
        }
    } else {
        let cleaned = spec_line_cleaned(s);
        spec_nonempty_lines(cleaned.skip(spec_brief_prefix(cleaned).len() as int))
    }
}

/// The brief of either multi-line form: for a block comment the first
/// non-empty content line, for line markers the leading non-blank run
/// joined with single spaces.
pub open spec fn spec_brief(s: Seq<char>) -> Seq<char> {
    if spec_is_block(s) {
        let filtered = spec_nonempty_lines(spec_block_collect(spec_after_first(spec_lines(s))));
        if filtered.len() > 0 {
            filtered[0]
        } else {
            Seq::empty()
        }
    } else {
        spec_join(spec_brief_prefix(spec_line_cleaned(s)), ' ')
    }
}

/// The description: remaining non-blank, non-directive lines joined
/// with newlines.
pub open spec fn spec_description(s: Seq<char>) -> Seq<char> {
    spec_join(spec_desc_lines(spec_rest_lines(s)), '\n')
}

/// The implementation references: the last directive wins.
pub open spec fn spec_impl_refs(s: Seq<char>) -> Option<Seq<Seq<char>>> {
    spec_impls_from(spec_rest_lines(s), None)
}

/// The character sequences of an optional reference list.
pub open spec fn impl_refs_view(o: Option<Vec<String>>) -> Option<Seq<Seq<char>>> {
    match o {
        None => None,
        Some(v) => Some(crate::text::str_views(v@)),
    }
}

/// A character sequence free of newlines.
pub open spec fn no_newline(l: Seq<char>) -> bool {
    forall|i: int| 0 <= i < l.len() ==> l[i] != '\n'
}

/// Strip a prefix if present, then trim what is left.
pub open spec fn spec_remove_prefix_and_clean(s: Seq<char>, p: Seq<char>) -> Seq<char> {
    spec_trim(spec_strip_prefix(s, p))
}

pub fn remove_prefix_and_clean(string: &str, prefix: &str) -> (r: String)
    ensures
        r@ == spec_remove_prefix_and_clean(string@, prefix@),
{
    let v = chars_of(string);
    let p = chars_of(prefix);
    string_of(&trim(&strip_prefix_if(&v, &p)))
}

fn clean_line(l: &Vec<char>) -> (r: Vec<char>)
    ensures
        r@ == spec_clean_line(l@),
{
    let t = trim(l);
    let m1 = chars_of("///<");
    if starts_with(&t, &m1) {
        return trim(&strip_prefix_if(&t, &m1));
    }
    let m2 = chars_of("//<");
    if starts_with(&t, &m2) {
        return trim(&strip_prefix_if(&t, &m2));
    }
    let m3 = chars_of("///");
    trim(&strip_prefix_if(&t, &m3))
}

fn block_collect(lines: &Vec<Vec<char>>) -> (r: Vec<Vec<char>>)
    ensures
        views_of(r@) == spec_block_collect(spec_after_first(views_of(lines@))),
{
    let ghost full = views_of(lines@);
    let mut r: Vec<Vec<char>> = Vec::new();
    if lines.len() == 0 {
        proof {
            assert(views_of(r@) =~= spec_block_collect(spec_after_first(full)));
        }
        return r;
    }
    let endm = chars_of("*/");
    let mut i: usize = 1;
    let mut done = false;
    proof {
        reveal_strlit("*/");
        assert(spec_after_first(full) == full.skip(1)) by {
            assert(full.drop_first() =~= full.skip(1));
        }
        assert(views_of(r@) + spec_block_collect(full.skip(1)) =~= spec_block_collect(
            full.skip(1),
        ));
    }
    while i < lines.len() && !done
        invariant
            1 <= i <= lines@.len(),
            full == views_of(lines@),
            full.len() == lines@.len(),
            endm@ == "*/"@,
            !done ==> spec_block_collect(full.skip(1)) == views_of(r@) + spec_block_collect(
                full.skip(i as int),
            ),
            done ==> spec_block_collect(full.skip(1)) == views_of(r@),
            endm@.len() == 2,
        decreases lines@.len() - i + (if done {
            0int
        } else {
            1int
        }),
    {
        let ghost rem = full.skip(i as int);
        let ghost r_old = views_of(r@);
        let t = trim(&lines[i]);
        proof {
            assert(rem[0] == full[i as int]);
            assert(t@ == spec_trim(rem[0]));
        }
        if ends_with(&t, &endm) {
            let w = trim(&strip_leading(&strip_all_suffix(&t, &endm), '*'));
            proof {
                assert(w@ == spec_block_end_clean(spec_trim(rem[0])));
            }
            if w.len() > 0 {
                r.push(w);
                proof {
                    assert(spec_block_collect(rem) == seq![w@]);
                    assert(views_of(r@) =~= r_old + seq![w@]);
                }
            } else {
                proof {
                    assert(spec_block_collect(rem) =~= Seq::<Seq<char>>::empty());
                    assert(views_of(r@) =~= r_old + Seq::<Seq<char>>::empty());
                }
            }
            done = true;
        } else {
            let c = trim(&strip_leading(&strip_leading(&t, '*'), '/'));
            r.push(c);
            proof {
                assert(c@ == spec_block_mid_clean(spec_trim(rem[0])));
                assert(rem.drop_first() =~= full.skip(i + 1));
                assert(spec_block_collect(rem) == seq![c@] + spec_block_collect(
                    full.skip(i + 1),
                ));
                assert(views_of(r@) =~= r_old + seq![c@]);
            }
            i = i + 1;
        }
    }
    proof {
        if !done {
            assert(full.skip(i as int) =~= Seq::<Seq<char>>::empty());
            assert(spec_block_collect(full.skip(i as int)) =~= Seq::<Seq<char>>::empty());
            assert(views_of(r@) =~= views_of(r@) + Seq::<Seq<char>>::empty());
        }
    }
    r
}

fn filter_nonempty(ls: &Vec<Vec<char>>) -> (r: Vec<Vec<char>>)
    ensures
        views_of(r@) == spec_nonempty_lines(views_of(ls@)),
{
    let ghost dv = views_of(ls@);
    let mut r: Vec<Vec<char>> = Vec::new();
    let mut i: usize = 0;
    proof {
        assert(dv.skip(0) =~= dv);
        assert(views_of(r@) + spec_nonempty_lines(dv) =~= spec_nonempty_lines(dv));
    }
    while i < ls.len()
        invariant
            i <= ls@.len(),
            dv == views_of(ls@),
            dv.len() == ls@.len(),
            spec_nonempty_lines(dv) == views_of(r@) + spec_nonempty_lines(dv.skip(i as int)),
        decreases ls@.len() - i,
    {
        let ghost rem = dv.skip(i as int);
        let ghost r_old = views_of(r@);
        proof {
            assert(rem[0] == dv[i as int]);
            assert(rem.drop_first() =~= dv.skip(i + 1));
        }
        if ls[i].len() > 0 {
            r.push(copy_chars(&ls[i]));
            proof {
                assert(views_of(r@) =~= r_old + seq![rem[0]]);
            }
        } else {
            proof {
                assert(views_of(r@) =~= r_old + Seq::<Seq<char>>::empty());
            }
        }
        i = i + 1;
    }
    proof {
        assert(spec_nonempty_lines(dv.skip(i as int)) =~= Seq::<Seq<char>>::empty());
        assert(views_of(r@) =~= views_of(r@) + Seq::<Seq<char>>::empty());
    }
    r
}

fn brief_prefix(ls: &Vec<Vec<char>>) -> (r: Vec<Vec<char>>)
    ensures
        views_of(r@) == spec_brief_prefix(views_of(ls@)),
{
    let ghost dv = views_of(ls@);
    let mut r: Vec<Vec<char>> = Vec::new();
    let mut i: usize = 0;
    proof {
        assert(dv.skip(0) =~= dv);
        assert(views_of(r@) + spec_brief_prefix(dv) =~= spec_brief_prefix(dv));
    }
    while i < ls.len() && ls[i].len() > 0
        invariant
            i <= ls@.len(),
            dv == views_of(ls@),
            dv.len() == ls@.len(),
            spec_brief_prefix(dv) == views_of(r@) + spec_brief_prefix(dv.skip(i as int)),
            i < ls@.len() ==> (i < dv.len() && dv[i as int].len() == ls@[i as int]@.len()),
        decreases ls@.len() - i,
    {
        let ghost rem = dv.skip(i as int);
        let ghost r_old = views_of(r@);
        proof {
            assert(rem[0] == dv[i as int]);
            assert(rem.drop_first() =~= dv.skip(i + 1));
        }
        r.push(copy_chars(&ls[i]));
        proof {
            assert(views_of(r@) =~= r_old + seq![rem[0]]);
        }
        i = i + 1;
    }
    proof {
        let rem = dv.skip(i as int);
        if i < ls@.len() {
            assert(rem[0] == dv[i as int]);
            assert(rem[0].len() == 0);
        }
        assert(spec_brief_prefix(rem) =~= Seq::<Seq<char>>::empty());
        assert(views_of(r@) =~= views_of(r@) + Seq::<Seq<char>>::empty());
    }
    r
}

fn directive_payload(p: &Vec<char>) -> (r: Vec<char>)
    ensures
        r@ == (match spec_find(p@, '}') {
            None => p@,
            Some(i) => if 0 <= i <= p@.len() {
                p@.take(i)
            } else {
                p@
            },
        }),
{
    match find_from(p, 0, '}') {
        None => {
            proof {
                lemma_find_char(p@, '}');
                if spec_find(p@, '}') is Some {
                    let fi = spec_find(p@, '}')->Some_0;
                    assert(p@[fi] == '}');
                    assert(false);
                }
            }
            copy_chars(p)
        },
        Some(i) => {
            proof {
                lemma_find_char(p@, '}');
                if spec_find(p@, '}') is None {
                    assert(p@[i as int] != '}');
                    assert(false);
                }
                let fi = spec_find(p@, '}')->Some_0;
                assert(p@[fi] == '}');
                assert(fi == i as int);
            }
            let r = subrange_of(p, 0, i);
            proof {
                assert(p@.subrange(0, i as int) =~= p@.take(i as int));
            }
            r
        },
    }
}

fn impl_refs_of(l: &Vec<char>) -> (r: Vec<Vec<char>>)
    ensures
        views_of(r@) == spec_impl_refs_of(l@),
{
    let m = chars_of("\\impl{");
    let p = strip_prefix_if(l, &m);
    let body = directive_payload(&p);
    let parts = split_at_char(&body, ',');
    let mut out: Vec<Vec<char>> = Vec::new();
    let mut i: usize = 0;
    while i < parts.len()
        invariant
            i <= parts@.len(),
            out@.len() == i,
            forall|k: int| 0 <= k < i ==> out@[k]@ == spec_trim(parts@[k]@),
        decreases parts@.len() - i,
    {
        out.push(trim(&parts[i]));
        i = i + 1;
    }
    proof {
        let refs = spec_impl_refs_of(l@);
        assert forall|k: int| 0 <= k < out@.len() implies views_of(out@)[k] == refs[k] by {
            assert(views_of(parts@)[k] == parts@[k]@);
        }
        assert(views_of(out@) =~= refs);
    }
    out
}

/// Parse one documentation-comment block.
///
/// Returns `None` exactly when the block is the hidden-doc sentinel;
/// otherwise the normalized brief, description and implementation
/// references, as the spec functions of this module state them.
pub fn parse_comment(string: String) -> (r: Option<Comment>)
    ensures
        r is None <==> spec_is_hidden(string@),
        !spec_is_hidden(string@) && spec_is_trailing_block(string@) ==> (r matches Some(c)
            && c.brief@ == spec_trailing_brief(string@) && c.description@ == Seq::<char>::empty()
            && c.impl_refs is None && (no_newline(spec_trim(string@)) ==> no_newline(c.brief@))),
        !spec_is_hidden(string@) && !spec_is_trailing_block(string@) ==> (r matches Some(c)
            && c.brief@ == spec_brief(string@) && c.description@ == spec_description(string@)
            && impl_refs_view(c.impl_refs) == spec_impl_refs(string@) && no_newline(c.brief@)),
{
    let v = chars_of(string.as_str());
    let t = trim(&v);
    let h1 = chars_of("/// #[doc(hidden)]");
    if eq_chars(&t, &h1) {
        return None;
    }
    let h2 = chars_of("/**< #[doc(hidden)]*/");
    if eq_chars(&t, &h2) {
        return None;
    }
    let mtrail = chars_of("/**<");
    if starts_with(&t, &mtrail) {
        let endm = chars_of("*/");
        let content = trim(&strip_suffix_if(&strip_prefix_if(&t, &mtrail), &endm));
        proof {
            if no_newline(spec_trim(string@)) {
                lemma_trailing_brief_no_newline(string@);
            }
        }
        return Some(
            Comment {
                brief: string_of(&content),
                description: String::new(),
                impl_refs: None,
            },
        );
    }
    let lines = split_lines(&v);
    let mblock = chars_of("/**");
    let is_block = starts_with(&t, &mblock);

    let brief: Vec<char>;
    let rest: Vec<Vec<char>>;
    if is_block {
        let collected = block_collect(&lines);
        let filtered = filter_nonempty(&collected);
        if filtered.len() > 0 {
            brief = copy_chars(&filtered[0]);
            rest = tail_lines(&filtered, 1);
            proof {
                assert(views_of(filtered@).skip(1) =~= views_of(filtered@).drop_first());
            }
        } else {
            brief = Vec::new();
            rest = Vec::new();
            proof {
                assert(brief@ =~= Seq::<char>::empty());
                assert(views_of(rest@) =~= views_of(filtered@));
            }
        }
    } else {
        let mut cleaned: Vec<Vec<char>> = Vec::new();
        let mut i: usize = 0;
        while i < lines.len()
            invariant
                i <= lines@.len(),
                cleaned@.len() == i,
                forall|k: int| 0 <= k < i ==> cleaned@[k]@ == spec_clean_line(lines@[k]@),
            decreases lines@.len() - i,
        {
            cleaned.push(clean_line(&lines[i]));
            i = i + 1;
        }
        proof {
            assert forall|k: int| 0 <= k < cleaned@.len() implies views_of(cleaned@)[k]
                == spec_line_cleaned(string@)[k] by {
                assert(views_of(lines@)[k] == lines@[k]@);
            }
            assert(views_of(cleaned@) =~= spec_line_cleaned(string@));
        }
        let bp = brief_prefix(&cleaned);
        proof {
            lemma_brief_prefix_len(views_of(cleaned@));
        }
        brief = join_char(&bp, ' ');
        rest = filter_nonempty(&tail_lines(&cleaned, bp.len()));
    }

    let mimpl = chars_of("\\impl{");
    let ghost rdv = views_of(rest@);
    let mut refs: Option<Vec<Vec<char>>> = None;
    let mut desc_lines: Vec<Vec<char>> = Vec::new();
    let mut i: usize = 0;
    proof {
        assert(rdv.skip(0) =~= rdv);
        assert(views_of(desc_lines@) + spec_desc_lines(rdv) =~= spec_desc_lines(rdv));
    }
    while i < rest.len()
        invariant
            i <= rest@.len(),
            rdv == views_of(rest@),
            rdv.len() == rest@.len(),
            mimpl@ == "\\impl{"@,
            spec_impls_from(rdv, None) == spec_impls_from(
                rdv.skip(i as int),
                match refs {
                    None => None,
                    Some(rv) => Some(views_of(rv@)),
                },
            ),
            spec_desc_lines(rdv) == views_of(desc_lines@) + spec_desc_lines(rdv.skip(i as int)),
        decreases rest@.len() - i,
    {
        let ghost rem = rdv.skip(i as int);
        let ghost d_old = views_of(desc_lines@);
        proof {
            assert(rem[0] == rdv[i as int]);
            assert(rem.drop_first() =~= rdv.skip(i + 1));
        }
        if starts_with(&rest[i], &mimpl) {
            refs = Some(impl_refs_of(&rest[i]));
            proof {
                assert(views_of(desc_lines@) =~= d_old + Seq::<Seq<char>>::empty());
            }
        } else {
            desc_lines.push(copy_chars(&rest[i]));
            proof {
                assert(views_of(desc_lines@) =~= d_old + seq![rem[0]]);
            }
        }
        i = i + 1;
    }
    proof {
        assert(rdv.skip(i as int) =~= Seq::<Seq<char>>::empty());
        assert(spec_desc_lines(rdv.skip(i as int)) =~= Seq::<Seq<char>>::empty());
        assert(views_of(desc_lines@) =~= views_of(desc_lines@) + Seq::<Seq<char>>::empty());
    }
    let description = join_char(&desc_lines, '\n');

    let impl_refs: Option<Vec<String>> = match refs {
        None => None,
        Some(rv) => {
            let mut out: Vec<String> = Vec::new();
            let mut k: usize = 0;
            while k < rv.len()
                invariant
                    k <= rv@.len(),
                    out@.len() == k,
                    forall|j: int| 0 <= j < k ==> out@[j]@ == rv@[j]@,
                decreases rv@.len() - k,
            {
                out.push(string_of(&rv[k]));
                k = k + 1;
            }
            proof {
                assert forall|j: int| 0 <= j < out@.len() implies str_views(out@)[j] == views_of(
                    rv@,
                )[j] by {
                    assert(out@[j]@ == rv@[j]@);
                }
                assert(str_views(out@) =~= views_of(rv@));
            }
            Some(out)
        },
    };

    proof {
        lemma_brief_no_newline(string@);
    }
    Some(Comment { brief: string_of(&brief), description: string_of(&description), impl_refs })
}

proof fn lemma_brief_prefix_len(ls: Seq<Seq<char>>)
    ensures
        spec_brief_prefix(ls).len() <= ls.len(),
    decreases ls.len(),
{
    if ls.len() > 0 && ls[0].len() > 0 {
        lemma_brief_prefix_len(ls.drop_first());
    }
}

/// Every line holds no newline.
pub open spec fn all_no_newline(ls: Seq<Seq<char>>) -> bool {
    forall|k: int| 0 <= k < ls.len() ==> no_newline(#[trigger] ls[k])
}

proof fn lemma_no_nl_trim_start(s: Seq<char>)
    requires
        no_newline(s),
    ensures
        no_newline(spec_trim_start(s)),
    decreases s.len(),
{
    if s.len() > 0 && crate::text::is_space(s[0]) {
        assert(no_newline(s.drop_first()));
        lemma_no_nl_trim_start(s.drop_first());
    }
}

proof fn lemma_no_nl_trim_end(s: Seq<char>)
    requires
        no_newline(s),
    ensures
        no_newline(spec_trim_end(s)),
    decreases s.len(),
{
    if s.len() > 0 && crate::text::is_space(s[s.len() - 1]) {
        assert(no_newline(s.drop_last()));
        lemma_no_nl_trim_end(s.drop_last());
    }
}

proof fn lemma_no_nl_trim(s: Seq<char>)
    requires
        no_newline(s),
    ensures
        no_newline(spec_trim(s)),
{
    lemma_no_nl_trim_start(s);
    lemma_no_nl_trim_end(spec_trim_start(s));
}

proof fn lemma_no_nl_strip_prefix(s: Seq<char>, p: Seq<char>)
    requires
        no_newline(s),
    ensures
        no_newline(spec_strip_prefix(s, p)),
{
}

proof fn lemma_no_nl_strip_suffix(s: Seq<char>, p: Seq<char>)
    requires
        no_newline(s),
    ensures
        no_newline(spec_strip_suffix(s, p)),
{
}

proof fn lemma_no_nl_strip_leading(s: Seq<char>, c: char)
    requires
        no_newline(s),
    ensures
        no_newline(spec_strip_leading(s, c)),
    decreases s.len(),
{
    if s.len() > 0 && s[0] == c {
        assert(no_newline(s.drop_first()));
        lemma_no_nl_strip_leading(s.drop_first(), c);
    }
}

proof fn lemma_no_nl_strip_all_suffix(s: Seq<char>, p: Seq<char>)
    requires
        no_newline(s),
    ensures
        no_newline(spec_strip_all_suffix(s, p)),
    decreases s.len(),
{
    if p.len() > 0 && spec_ends_with(s, p) {
        assert(no_newline(s.take(s.len() - p.len())));
        lemma_no_nl_strip_all_suffix(s.take(s.len() - p.len()), p);
    }
}

proof fn lemma_no_nl_clean_line(l: Seq<char>)
    requires
        no_newline(l),
    ensures
        no_newline(spec_clean_line(l)),
{
    lemma_no_nl_trim(l);
    let t = spec_trim(l);
    lemma_no_nl_strip_prefix(t, "///<"@);
    lemma_no_nl_strip_prefix(t, "//<"@);
    lemma_no_nl_strip_prefix(t, "///"@);
    lemma_no_nl_trim(spec_strip_prefix(t, "///<"@));
    lemma_no_nl_trim(spec_strip_prefix(t, "//<"@));
    lemma_no_nl_trim(spec_strip_prefix(t, "///"@));
}

/// The lines of any text hold no newline themselves.
proof fn lemma_lines_no_newline(s: Seq<char>)
    ensures
        all_no_newline(spec_lines(s)),
    decreases s.len(),
{
    if s.len() > 0 {
        lemma_find_char(s, '\n');
        match spec_find(s, '\n') {
            None => {
                assert(no_newline(s));
            },
            Some(i) => {
                let first = strip_cr(s.take(i));
                assert(no_newline(s.take(i)));
                assert(no_newline(first));
                lemma_lines_no_newline(s.skip(i + 1));
                assert forall|k: int| 0 <= k < spec_lines(s).len() implies no_newline(
                    #[trigger] spec_lines(s)[k],
                ) by {
                    if k > 0 {
                        assert(spec_lines(s)[k] == spec_lines(s.skip(i + 1))[k - 1]);
                    }
                }
            },
        }
    }
}

proof fn lemma_block_collect_no_nl(ls: Seq<Seq<char>>)
    requires
        all_no_newline(ls),
    ensures
        all_no_newline(spec_block_collect(ls)),
    decreases ls.len(),
{
    if ls.len() > 0 {
        let t = spec_trim(ls[0]);
        lemma_no_nl_trim(ls[0]);
        if spec_ends_with(t, "*/"@) {
            lemma_no_nl_strip_all_suffix(t, "*/"@);
            lemma_no_nl_strip_leading(spec_strip_all_suffix(t, "*/"@), '*');
            lemma_no_nl_trim(spec_strip_leading(spec_strip_all_suffix(t, "*/"@), '*'));
        } else {
            lemma_no_nl_strip_leading(t, '*');
            lemma_no_nl_strip_leading(spec_strip_leading(t, '*'), '/');
            lemma_no_nl_trim(spec_strip_leading(spec_strip_leading(t, '*'), '/'));
            assert(all_no_newline(ls.drop_first()));
            lemma_block_collect_no_nl(ls.drop_first());
            assert forall|k: int| 0 <= k < spec_block_collect(ls).len() implies no_newline(
                #[trigger] spec_block_collect(ls)[k],
            ) by {
                if k > 0 {
                    assert(spec_block_collect(ls)[k] == spec_block_collect(ls.drop_first())[k
                        - 1]);
                }
            }
        }
    }
}

proof fn lemma_nonempty_no_nl(ls: Seq<Seq<char>>)
    requires
        all_no_newline(ls),
    ensures
        all_no_newline(spec_nonempty_lines(ls)),
    decreases ls.len(),
{
    if ls.len() > 0 {
        assert(all_no_newline(ls.drop_first()));
        lemma_nonempty_no_nl(ls.drop_first());
        if ls[0].len() > 0 {
            assert forall|k: int| 0 <= k < spec_nonempty_lines(ls).len() implies no_newline(
                #[trigger] spec_nonempty_lines(ls)[k],
            ) by {
                if k > 0 {
                    assert(spec_nonempty_lines(ls)[k] == spec_nonempty_lines(ls.drop_first())[k
                        - 1]);
                }
            }
        }
    }
}

proof fn lemma_brief_prefix_no_nl(ls: Seq<Seq<char>>)
    requires
        all_no_newline(ls),
    ensures
        all_no_newline(spec_brief_prefix(ls)),
    decreases ls.len(),
{
    if ls.len() > 0 && ls[0].len() > 0 {
        assert(all_no_newline(ls.drop_first()));
        lemma_brief_prefix_no_nl(ls.drop_first());
        assert forall|k: int| 0 <= k < spec_brief_prefix(ls).len() implies no_newline(
            #[trigger] spec_brief_prefix(ls)[k],
        ) by {
            if k > 0 {
                assert(spec_brief_prefix(ls)[k] == spec_brief_prefix(ls.drop_first())[k - 1]);
            }
        }
    }
}

proof fn lemma_join_rest_no_nl(ls: Seq<Seq<char>>, sep: char)
    requires
        all_no_newline(ls),
        sep != '\n',
    ensures
        no_newline(spec_join_rest(ls, sep)),
    decreases ls.len(),
{
    if ls.len() > 0 {
        assert(all_no_newline(ls.drop_first()));
        lemma_join_rest_no_nl(ls.drop_first(), sep);
        assert(no_newline(ls[0]));
        let whole = seq![sep] + ls[0] + spec_join_rest(ls.drop_first(), sep);
        assert forall|i: int| 0 <= i < whole.len() implies whole[i] != '\n' by {
            if i == 0 {
            } else if i <= ls[0].len() {
                assert(whole[i] == ls[0][i - 1]);
            } else {
                assert(whole[i] == spec_join_rest(ls.drop_first(), sep)[i - 1 - ls[0].len()]);
            }
        }
    }
}

proof fn lemma_join_no_nl(ls: Seq<Seq<char>>, sep: char)
    requires
        all_no_newline(ls),
        sep != '\n',
    ensures
        no_newline(spec_join(ls, sep)),
{
    if ls.len() > 0 {
        assert(no_newline(ls[0]));
        assert(all_no_newline(ls.drop_first()));
        lemma_join_rest_no_nl(ls.drop_first(), sep);
        let whole = ls[0] + spec_join_rest(ls.drop_first(), sep);
        assert forall|i: int| 0 <= i < whole.len() implies whole[i] != '\n' by {
            if i < ls[0].len() {
                assert(whole[i] == ls[0][i]);
            } else {
                assert(whole[i] == spec_join_rest(ls.drop_first(), sep)[i - ls[0].len()]);
            }
        }
    }
}

/// A `\impl{...}` directive line is excluded from the description: no
/// line of the description text begins with the directive token.
pub proof fn lemma_description_excludes_directives(ls: Seq<Seq<char>>)
    ensures
        forall|k: int|
            0 <= k < spec_desc_lines(ls).len() ==> !spec_is_impl_line(
                #[trigger] spec_desc_lines(ls)[k],
            ),
    decreases ls.len(),
{
    if ls.len() > 0 {
        lemma_description_excludes_directives(ls.drop_first());
        if !spec_is_impl_line(ls[0]) {
            assert forall|k: int| 0 <= k < spec_desc_lines(ls).len() implies !spec_is_impl_line(
                #[trigger] spec_desc_lines(ls)[k],
            ) by {
                if k > 0 {
                    assert(spec_desc_lines(ls)[k] == spec_desc_lines(ls.drop_first())[k - 1]);
                }
            }
        }
    }
}

/// A cleaned content line: no newline inside and no trailing
/// whitespace.
pub open spec fn clean_shape(l: Seq<char>) -> bool {
    no_newline(l) && (l.len() > 0 ==> !crate::text::is_space(l[l.len() - 1]))
}

/// Every line is non-empty and cleaned.
pub open spec fn good_lines(ls: Seq<Seq<char>>) -> bool {
    forall|k: int|
        0 <= k < ls.len() ==> (#[trigger] ls[k]).len() > 0 && clean_shape(ls[k])
}

proof fn lemma_trim_shape(l: Seq<char>)
    requires
        no_newline(l),
    ensures
        clean_shape(spec_trim(l)),
{
    lemma_no_nl_trim(l);
    crate::text::lemma_trim_end_shape(spec_trim_start(l));
}

proof fn lemma_clean_line_shape(l: Seq<char>)
    requires
        no_newline(l),
    ensures
        clean_shape(spec_clean_line(l)),
{
    lemma_no_nl_trim(l);
    let t = spec_trim(l);
    lemma_no_nl_strip_prefix(t, "///<"@);
    lemma_no_nl_strip_prefix(t, "//<"@);
    lemma_no_nl_strip_prefix(t, "///"@);
    lemma_trim_shape(spec_strip_prefix(t, "///<"@));
    lemma_trim_shape(spec_strip_prefix(t, "//<"@));
    lemma_trim_shape(spec_strip_prefix(t, "///"@));
}

proof fn lemma_block_collect_shape(ls: Seq<Seq<char>>)
    requires
        all_no_newline(ls),
    ensures
        forall|k: int|
            0 <= k < spec_block_collect(ls).len() ==> clean_shape(
                #[trigger] spec_block_collect(ls)[k],
            ),
    decreases ls.len(),
{
    if ls.len() > 0 {
        let t = spec_trim(ls[0]);
        lemma_no_nl_trim(ls[0]);
        if spec_ends_with(t, "*/"@) {
            lemma_no_nl_strip_all_suffix(t, "*/"@);
            lemma_no_nl_strip_leading(spec_strip_all_suffix(t, "*/"@), '*');
            lemma_trim_shape(spec_strip_leading(spec_strip_all_suffix(t, "*/"@), '*'));
        } else {
            lemma_no_nl_strip_leading(t, '*');
            lemma_no_nl_strip_leading(spec_strip_leading(t, '*'), '/');
            lemma_trim_shape(spec_strip_leading(spec_strip_leading(t, '*'), '/'));
            assert(all_no_newline(ls.drop_first()));
            lemma_block_collect_shape(ls.drop_first());
            assert forall|k: int| 0 <= k < spec_block_collect(ls).len() implies clean_shape(
                #[trigger] spec_block_collect(ls)[k],
            ) by {
                if k > 0 {
                    assert(spec_block_collect(ls)[k] == spec_block_collect(ls.drop_first())[k
                        - 1]);
                }
            }
        }
    }
}

proof fn lemma_nonempty_good(ls: Seq<Seq<char>>)
    requires
        forall|k: int| 0 <= k < ls.len() ==> clean_shape(#[trigger] ls[k]),
    ensures
        good_lines(spec_nonempty_lines(ls)),
    decreases ls.len(),
{
    if ls.len() > 0 {
        assert(forall|k: int|
            0 <= k < ls.drop_first().len() ==> clean_shape(#[trigger] ls.drop_first()[k]));
        lemma_nonempty_good(ls.drop_first());
        if ls[0].len() > 0 {
            assert forall|k: int| 0 <= k < spec_nonempty_lines(ls).len() implies (
            #[trigger] spec_nonempty_lines(ls)[k]).len() > 0 && clean_shape(
                spec_nonempty_lines(ls)[k],
            ) by {
                if k > 0 {
                    assert(spec_nonempty_lines(ls)[k] == spec_nonempty_lines(ls.drop_first())[k
                        - 1]);
                }
            }
        }
    }
}

proof fn lemma_desc_good(ls: Seq<Seq<char>>)
    requires
        good_lines(ls),
    ensures
        good_lines(spec_desc_lines(ls)),
    decreases ls.len(),
{
    if ls.len() > 0 {
        assert(good_lines(ls.drop_first()));
        lemma_desc_good(ls.drop_first());
        if !spec_is_impl_line(ls[0]) {
            assert forall|k: int| 0 <= k < spec_desc_lines(ls).len() implies (
            #[trigger] spec_desc_lines(ls)[k]).len() > 0 && clean_shape(
                spec_desc_lines(ls)[k],
            ) by {
                if k > 0 {
                    assert(spec_desc_lines(ls)[k] == spec_desc_lines(ls.drop_first())[k - 1]);
                }
            }
        }
    }
}

proof fn lemma_rest_lines_good(s: Seq<char>)
    ensures
        good_lines(spec_rest_lines(s)),
{
    lemma_lines_no_newline(s);
    if spec_is_block(s) {
        let after = spec_after_first(spec_lines(s));
        assert(all_no_newline(after)) by {
            assert forall|k: int| 0 <= k < after.len() implies no_newline(
                #[trigger] after[k],
            ) by {
                assert(after[k] == spec_lines(s)[k + 1]);
            }
        }
        lemma_block_collect_shape(after);
        lemma_nonempty_good(spec_block_collect(after));
        let filtered = spec_nonempty_lines(spec_block_collect(after));
        if filtered.len() > 0 {
            assert forall|k: int| 0 <= k < filtered.drop_first().len() implies (
            #[trigger] filtered.drop_first()[k]).len() > 0 && clean_shape(
                filtered.drop_first()[k],
            ) by {
                assert(filtered.drop_first()[k] == filtered[k + 1]);
            }
        }
    } else {
        let cleaned = spec_line_cleaned(s);
        assert(forall|k: int| 0 <= k < cleaned.len() ==> clean_shape(#[trigger] cleaned[k]))
            by {
            assert forall|k: int| 0 <= k < cleaned.len() implies clean_shape(
                #[trigger] cleaned[k],
            ) by {
                assert(cleaned[k] == spec_clean_line(spec_lines(s)[k]));
                lemma_clean_line_shape(spec_lines(s)[k]);
            }
        }
        let rest0 = cleaned.skip(spec_brief_prefix(cleaned).len() as int);
        lemma_brief_prefix_len(cleaned);
        assert forall|k: int| 0 <= k < rest0.len() implies clean_shape(
            #[trigger] rest0[k],
        ) by {
            assert(rest0[k] == cleaned[k + spec_brief_prefix(cleaned).len()]);
        }
        lemma_nonempty_good(rest0);
    }
}

/// A `\impl{...}` directive line is excluded from the description
/// text itself: no line of a parsed comment's description begins with
/// the directive token.
pub proof fn lemma_description_has_no_directive(s: Seq<char>)
    ensures
        forall|k: int|
            0 <= k < spec_lines(spec_description(s)).len() ==> !spec_is_impl_line(
                #[trigger] spec_lines(spec_description(s))[k],
            ),
{
    let rest = spec_rest_lines(s);
    let dls = spec_desc_lines(rest);
    lemma_rest_lines_good(s);
    lemma_desc_good(rest);
    assert forall|k: int, i: int|
        0 <= k < dls.len() && 0 <= i < dls[k].len() implies #[trigger] dls[k][i] != '\n' by {
        assert(clean_shape(dls[k]));
        assert(no_newline(dls[k]));
    }
    assert forall|k: int| 0 <= k < dls.len() implies (#[trigger] dls[k])[dls[k].len() - 1]
        != '\r' by {
        assert(clean_shape(dls[k]));
        assert(!crate::text::is_space(dls[k][dls[k].len() - 1]));
    }
    crate::text::lemma_lines_of_join(dls);
    lemma_description_excludes_directives(rest);
}

/// A single-line trailing block (no newline in its trimmed text)
/// yields a single-line brief.
pub proof fn lemma_trailing_brief_no_newline(s: Seq<char>)
    requires
        no_newline(spec_trim(s)),
    ensures
        no_newline(spec_trailing_brief(s)),
{
    lemma_no_nl_strip_prefix(spec_trim(s), "/**<"@);
    lemma_no_nl_strip_suffix(spec_strip_prefix(spec_trim(s), "/**<"@), "*/"@);
    lemma_no_nl_trim(spec_strip_suffix(spec_strip_prefix(spec_trim(s), "/**<"@), "*/"@));
}

/// The brief of a line-marker or block comment is a single line: it
/// never holds an embedded newline, whatever the input text was.
pub proof fn lemma_brief_no_newline(s: Seq<char>)
    ensures
        no_newline(spec_brief(s)),
{
    lemma_lines_no_newline(s);
    if spec_is_block(s) {
        let after = spec_after_first(spec_lines(s));
        assert(all_no_newline(after)) by {
            assert forall|k: int| 0 <= k < after.len() implies no_newline(
                #[trigger] after[k],
            ) by {
                assert(after[k] == spec_lines(s)[k + 1]);
            }
        }
        lemma_block_collect_no_nl(after);
        lemma_nonempty_no_nl(spec_block_collect(after));
    } else {
        let cleaned = spec_line_cleaned(s);
        assert(all_no_newline(cleaned)) by {
            assert forall|k: int| 0 <= k < cleaned.len() implies no_newline(
                #[trigger] cleaned[k],
            ) by {
                assert(cleaned[k] == spec_clean_line(spec_lines(s)[k]));
                lemma_no_nl_clean_line(spec_lines(s)[k]);
            }
        }
        lemma_brief_prefix_no_nl(cleaned);
        lemma_join_no_nl(spec_brief_prefix(cleaned), ' ');
    }
}

} // verus!
