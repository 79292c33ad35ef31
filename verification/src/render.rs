//! The markdown renderer: one streaming pass that extracts the title
//! from a metadata block, captures embedded code examples, resolves
//! cross-reference links through the symbol index, and highlights
//! fenced code, handing everything else unchanged to the HTML
//! serializer.

use crate::config::Config;
use crate::doctest::{Doctest, spec_doctest_of};
use crate::index::{SymbolIndex, spec_lookup};
use crate::md::{MdEvent, doc_events, doc_events_of, html_of, render_html, subs_view};
use crate::text::{
    spec_trim, spec_starts_with, spec_strip_all_prefix, spec_lines, spec_join, spec_split_sub,
    spec_replace, str_views, views_of, chars_of, string_of, trim, starts_with, strip_all_prefix,
    split_lines, split_sub, replace_chars, copy_chars, extend_chars, eq_chars, join_char,
};
use vstd::prelude::*;

verus! {

/// One rendered page. The path is left for the caller to fill in.
#[derive(Debug)]
pub struct Page {
    pub title: String,
    pub content: String,
    pub path: String,
}

/// Declares syntect's syntax-definition collection, held opaquely.
#[verifier::external_type_specification]
#[verifier::external_body]
pub struct ExSyntaxSet(syntect::parsing::SyntaxSet);

/// Declares syntect's theme collection, held opaquely.
#[verifier::external_type_specification]
#[verifier::external_body]
pub struct ExThemeSet(syntect::highlighting::ThemeSet);

/// The process-wide highlighting resources: syntax definitions keyed
/// by language tag, and the loaded themes.
pub struct HighlightState {
    pub syntax_set: syntect::parsing::SyntaxSet,
    pub theme_set: syntect::highlighting::ThemeSet,
}

impl HighlightState {
    /// Relies on syntect's SyntaxSet::load_defaults_newlines and
    /// ThemeSet::load_defaults: the bundled definitions and themes.
    #[verifier::external_body]
    pub fn new() -> (r: HighlightState)
    {
        HighlightState {
            syntax_set: syntect::parsing::SyntaxSet::load_defaults_newlines(),
            theme_set: syntect::highlighting::ThemeSet::load_defaults(),
        }
    }
}

/// The language tags for which a syntax set holds a highlighting
/// definition, looked up by file extension.
pub uninterp spec fn known_tags(ss: syntect::parsing::SyntaxSet) -> Set<Seq<char>>;

/// Relies on syntect's SyntaxSet::find_syntax_by_extension: a pure,
/// deterministic lookup in the set's definitions; the tags it knows
/// are named `known_tags`.
#[verifier::external_body]
fn has_syntax(state: &HighlightState, lang: &str) -> (r: bool)
    ensures
        r == known_tags(state.syntax_set).contains(lang@),
{
    state.syntax_set.find_syntax_by_extension(lang).is_some()
}

/// The class-annotated span markup syntect's tokenizer yields for a
/// code text under a tag, or nothing when the tag is unknown to the
/// set or a line cannot be tokenized. Deterministic in the set, the
/// tag and the text.
pub uninterp spec fn highlight_of(
    ss: syntect::parsing::SyntaxSet,
    lang: Seq<char>,
    code: Seq<char>,
) -> Option<Seq<char>>;

/// Relies on syntect's SyntaxSet::find_syntax_by_extension,
/// ClassedHTMLGenerator::new_with_class_style and LinesWithEndings: the
/// code is tokenized line by line into class-annotated span markup, a
/// pure function of the set, the tag and the text, named
/// `highlight_of`. `None` when the set has no definition for the tag
/// or a line cannot be tokenized; the caller checks the tag beforehand
/// and falls back to the verbatim code on a tokenization failure.
#[verifier::external_body]
fn highlight_block(state: &HighlightState, lang: &str, code: &str) -> (r: Option<String>)
    ensures
        r is Some <==> highlight_of(state.syntax_set, lang@, code@) is Some,
        r matches Some(h) ==> Some(h@) == highlight_of(state.syntax_set, lang@, code@),
{
    let syntax = match state.syntax_set.find_syntax_by_extension(lang) {
        Some(s) => s,
        None => return None,
    };
    let mut generator = syntect::html::ClassedHTMLGenerator::new_with_class_style(
        syntax,
        &state.syntax_set,
        syntect::html::ClassStyle::Spaced,
    );
    for line in syntect::util::LinesWithEndings::from(code) {
        if generator.parse_html_for_line_which_includes_newline(line).is_err() {
            return None;
        }
    }
    Some(generator.finalize())
}

/// Rendering fails only on a fence whose language tag has no
/// highlighting definition.
#[derive(Debug)]
pub enum RenderError {
    UnknownLanguage(String),
}

/// A qualified name with every scope separator turned into a path
/// separator.
pub open spec fn spec_namespace_path(name: Seq<char>) -> Seq<char> {
    spec_replace(name, "::"@, "/"@)
}

/// The output path of a documented symbol: a namespace keeps its scope
/// structure; any other kind becomes `<scopes>/<kind>.<basename>`, the
/// basename's path separators replaced to avoid collisions.
pub open spec fn spec_symbol_path(name: Seq<char>, kind: Seq<char>) -> Seq<char> {
    if kind == "namespace"@ {
        spec_namespace_path(name)
    } else {
        let n2 = spec_strip_all_prefix(name, "::"@);
        let parts = spec_split_sub(n2, "::"@);
        if parts.len() > 1 {
            spec_join(parts.drop_last(), '/') + seq!['/'] + kind + seq!['.'] + spec_replace(
                parts.last(),
                "/"@,
                "slash"@,
            )
        } else {
            kind + seq!['.'] + spec_replace(n2, "/"@, "slash"@)
        }
    }
}

/// The resolved path for a name, if the index knows it.
pub open spec fn spec_path_for_name(name: Seq<char>, index: Seq<(String, String)>) -> Option<
    Seq<char>,
> {
    match spec_lookup(index, name) {
        None => None,
        Some(kind) => Some(spec_symbol_path(name, kind)),
    }
}

/// A namespace's output path.
pub fn get_namespace_path(name: &str) -> (r: String)
    ensures
        r@ == spec_namespace_path(name@),
{
    let sep = chars_of("::");
    proof {
        reveal_strlit("::");
    }
    string_of(&replace_chars(&chars_of(name), &sep, &chars_of("/")))
}

/// Resolve a qualified name through the symbol index to its output
/// path, by the naming rule of `spec_symbol_path`; `None` when the
/// index does not know the name.
pub fn get_path_for_name(name: &str, index: &SymbolIndex) -> (r: Option<String>)
    ensures
        match r {
            Some(p) => spec_path_for_name(name@, index@) == Some(p@),
            None => spec_path_for_name(name@, index@) is None,
        },
{
    let kind = match index.get(name) {
        None => {
            return None;
        },
        Some(k) => k,
    };
    let kindv = chars_of(kind.as_str());
    let nmv = chars_of(name);
    if eq_chars(&kindv, &chars_of("namespace")) {
        return Some(get_namespace_path(name));
    }
    let sep = chars_of("::");
    proof {
        reveal_strlit("::");
    }
    let n2 = strip_all_prefix(&nmv, &sep);
    let parts = split_sub(&n2, &sep);
    let slash = chars_of("/");
    let slashword = chars_of("slash");
    proof {
        reveal_strlit("/");
    }
    if parts.len() > 1 {
        let front = head_pieces(&parts, parts.len() - 1);
        let dir = join_char(&front, '/');
        proof {
            assert(views_of(front@) =~= views_of(parts@).drop_last());
        }
        let mut r = dir;
        r.push('/');
        extend_chars(&mut r, &kindv);
        r.push('.');
        let base = replace_chars(&parts[parts.len() - 1], &slash, &slashword);
        extend_chars(&mut r, &base);
        proof {
            assert(views_of(parts@).last() == parts@[parts@.len() - 1]@);
            assert(r@ =~= spec_symbol_path(name@, kindv@));
        }
        Some(string_of(&r))
    } else {
        let mut r = copy_chars(&kindv);
        r.push('.');
        let base = replace_chars(&n2, &slash, &slashword);
        extend_chars(&mut r, &base);
        proof {
            assert(r@ =~= spec_symbol_path(name@, kindv@));
        }
        Some(string_of(&r))
    }
}

/// The pieces before position `to`.
fn head_pieces(ls: &Vec<Vec<char>>, to: usize) -> (r: Vec<Vec<char>>)
    requires
        to <= ls@.len(),
    ensures
        views_of(r@) == views_of(ls@).take(to as int),
{
    let mut r: Vec<Vec<char>> = Vec::new();
    let mut i: usize = 0;
    while i < to
        invariant
            i <= to <= ls@.len(),
            r@.len() == i,
            forall|k: int| 0 <= k < i ==> r@[k]@ == ls@[k]@,
        decreases to - i,
    {
        r.push(copy_chars(&ls[i]));
        i = i + 1;
    }
    proof {
        assert forall|k: int| 0 <= k < r@.len() implies views_of(r@)[k] == views_of(ls@).take(
            to as int,
        )[k] by {
            assert(r@[k]@ == ls@[k]@);
        }
        assert(views_of(r@) =~= views_of(ls@).take(to as int));
    }
    r
}

/// The title named by a metadata block: the first line of the form
/// `title: <value>`, its value trimmed; empty when no line matches.
pub open spec fn spec_title_lines(ls: Seq<Seq<char>>) -> Seq<char>
    decreases ls.len(),
{
    if ls.len() == 0 {
        Seq::empty()
    } else if spec_starts_with(ls[0], "title:"@) {
        spec_trim(spec_strip_all_prefix(ls[0], "title:"@))
    } else {
        spec_title_lines(ls.drop_first())
    }
}

pub open spec fn spec_title_of(meta: Seq<char>) -> Seq<char> {
    spec_title_lines(spec_lines(meta))
}

#[verifier::loop_isolation(false)]
fn title_from_meta(meta: &Vec<char>) -> (r: Vec<char>)
    ensures
        r@ == spec_title_of(meta@),
{
    let lines = split_lines(meta);
    let ghost ldv = views_of(lines@);
    let pat = chars_of("title:");
    proof {
        reveal_strlit("title:");
        assert(ldv.skip(0) =~= ldv);
    }
    let mut i: usize = 0;
    while i < lines.len()
        invariant
            i <= lines@.len(),
            ldv == views_of(lines@),
            ldv.len() == lines@.len(),
            pat@ == "title:"@,
            pat@.len() > 0,
            spec_title_lines(ldv) == spec_title_lines(ldv.skip(i as int)),
        decreases lines@.len() - i,
    {
        let ghost rem = ldv.skip(i as int);
        proof {
            assert(rem[0] == ldv[i as int]);
            assert(rem.drop_first() =~= ldv.skip(i + 1));
        }
        if starts_with(&lines[i], &pat) {
            let out = trim(&strip_all_prefix(&lines[i], &pat));
            proof {
                assert(spec_title_lines(ldv.skip(i as int)) == spec_trim(
                    spec_strip_all_prefix(rem[0], "title:"@),
                ));
            }
            return out;
        }
        i = i + 1;
    }
    proof {
        assert(ldv.skip(i as int) =~= Seq::<Seq<char>>::empty());
    }
    Vec::new()
}

/// The streaming state of the renderer: the code and metadata buffers,
/// the extracted title, the captured fragments (raw text and whether an
/// entry point is wanted), and whether a fence's effective tag was
/// outside the known highlighting tags.
pub ghost struct RState {
    pub in_code: bool,
    pub code: Seq<char>,
    pub lang: Seq<char>,
    pub in_meta: bool,
    pub meta: Seq<char>,
    pub title: Seq<char>,
    pub captures: Seq<(Seq<char>, bool)>,
    pub failed: bool,
}

pub open spec fn init_rstate() -> RState {
    RState {
        in_code: false,
        code: Seq::empty(),
        lang: Seq::empty(),
        in_meta: false,
        meta: Seq::empty(),
        title: Seq::empty(),
        captures: Seq::empty(),
        failed: false,
    }
}

/// Whether a tag names a fragment compiled with a synthesized entry
/// point.
pub open spec fn spec_wants_main(lang: Seq<char>) -> bool {
    lang == "cpp"@ || lang == "c++"@ || lang.len() == 0
}

/// Whether a tag names a fragment compiled as it stands.
pub open spec fn spec_no_main(lang: Seq<char>) -> bool {
    lang == "nomain"@ || lang == "c++-nomain"@ || lang == "cpp-nomain"@
}

/// One streaming step of the renderer, against the set of language
/// tags the highlighting state knows.
pub open spec fn rstep(st: RState, ev: MdEvent, tags: Set<Seq<char>>) -> RState {
    match ev {
        MdEvent::CodeStart(l) => RState { in_code: true, lang: l@, ..st },
        MdEvent::CodeEnd => {
            if st.in_code {
                if st.lang == "mermaid"@ {
                    RState { in_code: false, code: Seq::empty(), ..st }
                } else if spec_wants_main(st.lang) || spec_no_main(st.lang) {
                    RState {
                        in_code: false,
                        code: Seq::empty(),
                        lang: "cpp"@,
                        captures: st.captures.push((st.code, spec_wants_main(st.lang))),
                        failed: st.failed || !tags.contains("cpp"@),
                        ..st
                    }
                } else {
                    RState {
                        in_code: false,
                        code: Seq::empty(),
                        failed: st.failed || !tags.contains(st.lang),
                        ..st
                    }
                }
            } else {
                st
            }
        },
        MdEvent::Text(t) => {
            if st.in_code {
                RState { code: st.code + t@, ..st }
            } else if st.in_meta {
                RState { meta: st.meta + t@, ..st }
            } else {
                st
            }
        },
        MdEvent::MetaStart => RState { in_meta: true, ..st },
        MdEvent::MetaEnd => RState {
            in_meta: false,
            title: spec_title_of(st.meta),
            meta: Seq::empty(),
            ..st
        },
        _ => st,
    }
}

/// The renderer state after the whole event stream.
pub open spec fn rscan(evs: Seq<MdEvent>, tags: Set<Seq<char>>) -> RState
    decreases evs.len(),
{
    if evs.len() == 0 {
        init_rstate()
    } else {
        rstep(rscan(evs.drop_last(), tags), evs.last(), tags)
    }
}

proof fn lemma_failed_step(st: RState, ev: MdEvent, tags: Set<Seq<char>>)
    ensures
        st.failed ==> rstep(st, ev, tags).failed,
{
}

proof fn lemma_failed_prefix(evs: Seq<MdEvent>, tags: Set<Seq<char>>, i: int)
    requires
        0 <= i <= evs.len(),
        rscan(evs.take(i), tags).failed,
    ensures
        rscan(evs, tags).failed,
    decreases evs.len() - i,
{
    if i == evs.len() {
        assert(evs.take(i) =~= evs);
    } else {
        assert(evs.take(i + 1).drop_last() =~= evs.take(i));
        assert(evs.take(i + 1).last() == evs[i]);
        lemma_failed_step(rscan(evs.take(i), tags), evs[i], tags);
        lemma_failed_prefix(evs, tags, i + 1);
    }
}

/// The diagram container a mermaid fence is wrapped in.
pub open spec fn spec_mermaid_html(code: Seq<char>) -> Seq<char> {
    "<div class=\"mermaid\">"@ + code + "</div>"@
}

fn mermaid_html(code: &Vec<char>) -> (r: Vec<char>)
    ensures
        r@ == spec_mermaid_html(code@),
{
    let mut r = chars_of("<div class=\"mermaid\">");
    extend_chars(&mut r, code);
    let tail = chars_of("</div>");
    extend_chars(&mut r, &tail);
    proof {
        assert(r@ =~= spec_mermaid_html(code@));
    }
    r
}

/// The container highlighted span markup is wrapped in.
pub open spec fn spec_code_html(spans: Seq<char>) -> Seq<char> {
    "<div class=\"code highlight\"><pre>"@ + spans + "</pre></div>"@
}

fn code_html(spans: &Vec<char>) -> (r: Vec<char>)
    ensures
        r@ == spec_code_html(spans@),
{
    let mut r = chars_of("<div class=\"code highlight\"><pre>");
    extend_chars(&mut r, spans);
    let tail = chars_of("</pre></div>");
    extend_chars(&mut r, &tail);
    proof {
        assert(r@ =~= spec_code_html(spans@));
    }
    r
}

/// The opening anchor of a resolved cross-reference: the base URL, the
/// resolved path, and the `.html` suffix.
pub open spec fn spec_anchor_html(base: Seq<char>, path: Seq<char>) -> Seq<char> {
    "<a href=\""@ + base + seq!['/'] + path + ".html\">"@
}

fn anchor_html(base: &Vec<char>, path: &Vec<char>) -> (r: Vec<char>)
    ensures
        r@ == spec_anchor_html(base@, path@),
{
    let mut r = chars_of("<a href=\"");
    extend_chars(&mut r, base);
    r.push('/');
    extend_chars(&mut r, path);
    let tail = chars_of(".html\">");
    extend_chars(&mut r, &tail);
    proof {
        assert(r@ =~= spec_anchor_html(base@, path@));
    }
    r
}

/// The span markup of a fence, or the code itself when tokenization
/// fails on a known tag.
pub open spec fn spec_spans(
    ss: syntect::parsing::SyntaxSet,
    lang: Seq<char>,
    code: Seq<char>,
) -> Seq<char> {
    match highlight_of(ss, lang, code) {
        Some(h) => h,
        None => code,
    }
}

/// The display text of a captured fragment: its visible lines,
/// newline-joined.
pub open spec fn spec_display_text(raw: Seq<char>) -> Seq<char> {
    spec_join(spec_doctest_of(raw).display, '\n')
}

/// The substitution the renderer hands the serializer for one event,
/// given the renderer state before it: `None` keeps the event, `Some`
/// replaces it with that HTML text.
pub open spec fn spec_sub_at(
    st: RState,
    ev: MdEvent,
    index: Seq<(String, String)>,
    base: Seq<char>,
    ss: syntect::parsing::SyntaxSet,
) -> Option<Seq<char>> {
    match ev {
        MdEvent::CodeStart(l) => Some(Seq::empty()),
        MdEvent::CodeEnd => {
            if st.in_code {
                if st.lang == "mermaid"@ {
                    Some(spec_mermaid_html(st.code))
                } else if spec_wants_main(st.lang) || spec_no_main(st.lang) {
                    if known_tags(ss).contains("cpp"@) {
                        Some(spec_code_html(spec_spans(ss, "cpp"@, spec_display_text(st.code))))
                    } else {
                        None
                    }
                } else {
                    if known_tags(ss).contains(st.lang) {
                        Some(spec_code_html(spec_spans(ss, st.lang, st.code)))
                    } else {
                        None
                    }
                }
            } else {
                None
            }
        },
        MdEvent::Text(t) => if st.in_code || st.in_meta {
            Some(Seq::empty())
        } else {
            None
        },
        MdEvent::MetaStart => Some(Seq::empty()),
        MdEvent::MetaEnd => Some(Seq::empty()),
        MdEvent::LinkStart { dest } => {
            if spec_starts_with(dest@, "::"@) {
                match spec_path_for_name(spec_strip_all_prefix(dest@, "::"@), index) {
                    Some(p) => Some(spec_anchor_html(base, p)),
                    None => None,
                }
            } else {
                None
            }
        },
        MdEvent::LinkEnd => Some("</a>"@),
        _ => None,
    }
}

/// The whole substitution list of a document, one entry per event.
pub open spec fn spec_subs(
    evs: Seq<MdEvent>,
    index: Seq<(String, String)>,
    base: Seq<char>,
    ss: syntect::parsing::SyntaxSet,
) -> Seq<Option<Seq<char>>> {
    Seq::new(
        evs.len(),
        |i: int|
            if 0 <= i < evs.len() {
                spec_sub_at(rscan(evs.take(i), known_tags(ss)), evs[i], index, base, ss)
            } else {
                None
            },
    )
}

/// `d` is the normalized fragment of the raw text `raw`, with the
/// entry-point request `main`.
pub open spec fn doctest_matches(d: Doctest, raw: Seq<char>, main: bool) -> bool {
    &&& d.code@ == spec_join(spec_doctest_of(raw).compiled, '\n')
    &&& d.display_code@ == spec_join(spec_doctest_of(raw).display, '\n')
    &&& str_views(d.includes@) == spec_doctest_of(raw).includes
    &&& d.add_main == main
}

/// The queue segment `ds` holds exactly the normalized fragments of
/// the captures `caps`, in order.
pub open spec fn queue_matches(ds: Seq<Doctest>, caps: Seq<(Seq<char>, bool)>) -> bool {
    ds.len() == caps.len() && forall|j: int|
        0 <= j < caps.len() ==> doctest_matches(#[trigger] ds[j], caps[j].0, caps[j].1)
}

/// Render one markdown document.
///
/// The call fails exactly when some fence's effective tag (after the
/// doctest substitution to `cpp`) is outside the highlighting state's
/// known tags; empty input, absent metadata and unresolved references
/// still succeed. On success the page's title is the metadata title,
/// the content is the serialized document with exactly the
/// substitutions of `spec_subs` applied (diagram containers,
/// highlighted fences showing the captured display text, resolved
/// anchors, literal closing anchors, metadata dropped, everything else
/// kept), and exactly the captured fragments have been appended to the
/// doctest queue, in discovery order, each normalized. The queued
/// fragments already there are never touched.
#[verifier::loop_isolation(false)]
pub fn process_markdown(
    input: &str,
    index: &SymbolIndex,
    doctests: &mut Vec<Doctest>,
    config: &Config,
    highlight_state: &HighlightState,
) -> (r: Result<Page, RenderError>)
    ensures
        r is Ok <==> !rscan(
            doc_events_of(input@),
            known_tags(highlight_state.syntax_set),
        ).failed,
        r matches Ok(page) ==> ({
            let st = rscan(doc_events_of(input@), known_tags(highlight_state.syntax_set));
            &&& page.title@ == st.title
            &&& page.content@ == html_of(
                input@,
                spec_subs(
                    doc_events_of(input@),
                    index@,
                    config.output.base_url@,
                    highlight_state.syntax_set,
                ),
            )
            &&& page.path@ == Seq::<char>::empty()
            &&& final(doctests)@.len() == old(doctests)@.len() + st.captures.len()
            &&& queue_matches(final(doctests)@.skip(old(doctests)@.len() as int), st.captures)
        }),
        final(doctests)@.len() >= old(doctests)@.len(),
        forall|j: int|
            0 <= j < old(doctests)@.len() ==> final(doctests)@[j] == old(doctests)@[j],
{
    let kinds = doc_events(input);
    let ghost evs = kinds@;
    let ghost tags = known_tags(highlight_state.syntax_set);
    let mut subs: Vec<Option<String>> = Vec::new();
    let mut in_code = false;
    let mut code: Vec<char> = Vec::new();
    let mut lang: Vec<char> = Vec::new();
    let mut in_meta = false;
    let mut meta: Vec<char> = Vec::new();
    let mut title: Vec<char> = Vec::new();
    let ghost d0 = old(doctests)@;
    let sep = chars_of("::");
    proof {
        reveal_strlit("::");
        assert(evs.take(0) =~= Seq::<MdEvent>::empty());
        assert(code@ =~= Seq::<char>::empty());
        assert(lang@ =~= Seq::<char>::empty());
        assert(meta@ =~= Seq::<char>::empty());
        assert(title@ =~= Seq::<char>::empty());
        assert(doctests@.skip(d0.len() as int) =~= Seq::<Doctest>::empty());
    }
    let mut i: usize = 0;
    while i < kinds.len()
        invariant
            i <= kinds@.len(),
            kinds@ == evs,
            evs == doc_events_of(input@),
            tags == known_tags(highlight_state.syntax_set),
            d0 == old(doctests)@,
            subs@.len() == i,
            forall|k: int|
                0 <= k < i ==> subs_view(subs@)[k] == spec_sub_at(
                    rscan(evs.take(k), tags),
                    #[trigger] evs[k],
                    index@,
                    config.output.base_url@,
                    highlight_state.syntax_set,
                ),
            sep@ == "::"@,
            sep@.len() == 2,
            in_code == rscan(evs.take(i as int), tags).in_code,
            code@ == rscan(evs.take(i as int), tags).code,
            lang@ == rscan(evs.take(i as int), tags).lang,
            in_meta == rscan(evs.take(i as int), tags).in_meta,
            meta@ == rscan(evs.take(i as int), tags).meta,
            title@ == rscan(evs.take(i as int), tags).title,
            !rscan(evs.take(i as int), tags).failed,
            doctests@.len() == d0.len() + rscan(evs.take(i as int), tags).captures.len(),
            forall|j: int| 0 <= j < d0.len() ==> doctests@[j] == d0[j],
            queue_matches(
                doctests@.skip(d0.len() as int),
                rscan(evs.take(i as int), tags).captures,
            ),
        decreases kinds@.len() - i,
    {
        let ghost st = rscan(evs.take(i as int), tags);
        proof {
            assert(evs.take(i + 1).drop_last() =~= evs.take(i as int));
            assert(evs.take(i + 1).last() == evs[i as int]);
        }
        match &kinds[i] {
            MdEvent::CodeStart(l) => {
                in_code = true;
                lang = chars_of(l.as_str());
                subs.push(Some(String::new()));
            },
            MdEvent::CodeEnd => {
                if in_code {
                    if eq_chars(&lang, &chars_of("mermaid")) {
                        subs.push(Some(string_of(&mermaid_html(&code))));
                        code = Vec::new();
                        in_code = false;
                        proof {
                            assert(code@ =~= Seq::<char>::empty());
                        }
                    } else {
                        let wants_main = eq_chars(&lang, &chars_of("cpp")) || eq_chars(
                            &lang,
                            &chars_of("c++"),
                        ) || lang.len() == 0;
                        let no_main = eq_chars(&lang, &chars_of("nomain")) || eq_chars(
                            &lang,
                            &chars_of("c++-nomain"),
                        ) || eq_chars(&lang, &chars_of("cpp-nomain"));
                        if wants_main || no_main {
                            let d = Doctest::new(string_of(&code), wants_main);
                            code = chars_of(d.display_code.as_str());
                            let ghost q_old = doctests@;
                            doctests.push(d);
                            proof {
                                assert(doctests@.skip(d0.len() as int) =~= q_old.skip(
                                    d0.len() as int,
                                ).push(d));
                                let caps1 = st.captures.push((st.code, wants_main));
                                assert forall|j: int| 0 <= j < caps1.len() implies doctest_matches(
                                    #[trigger] doctests@.skip(d0.len() as int)[j],
                                    caps1[j].0,
                                    caps1[j].1,
                                ) by {
                                    if j < st.captures.len() {
                                        assert(doctests@.skip(d0.len() as int)[j] == q_old.skip(
                                            d0.len() as int,
                                        )[j]);
                                    }
                                }
                            }
                            lang = chars_of("cpp");
                        }
                        if !has_syntax(highlight_state, string_of(&lang).as_str()) {
                            proof {
                                assert(!tags.contains(lang@));
                                assert(rscan(evs.take(i + 1), tags) == rstep(
                                    st,
                                    evs[i as int],
                                    tags,
                                ));
                                assert(rscan(evs.take(i + 1), tags).failed);
                                lemma_failed_prefix(evs, tags, i + 1);
                                assert(rscan(evs, tags).failed);
                                assert(doctests@.len() >= d0.len());
                                assert(forall|j: int|
                                    0 <= j < d0.len() ==> doctests@[j] == d0[j]);
                            }
                            return Err(RenderError::UnknownLanguage(string_of(&lang)));
                        }
                        let spans = match highlight_block(
                            highlight_state,
                            string_of(&lang).as_str(),
                            string_of(&code).as_str(),
                        ) {
                            Some(h) => chars_of(h.as_str()),
                            None => copy_chars(&code),
                        };
                        subs.push(Some(string_of(&code_html(&spans))));
                        code = Vec::new();
                        in_code = false;
                        proof {
                            assert(code@ =~= Seq::<char>::empty());
                        }
                    }
                } else {
                    subs.push(None);
                }
            },
            MdEvent::Text(t) => {
                if in_code {
                    let tv = chars_of(t.as_str());
                    extend_chars(&mut code, &tv);
                    subs.push(Some(String::new()));
                } else if in_meta {
                    let tv = chars_of(t.as_str());
                    extend_chars(&mut meta, &tv);
                    subs.push(Some(String::new()));
                } else {
                    subs.push(None);
                }
            },
            MdEvent::MetaStart => {
                in_meta = true;
                subs.push(Some(String::new()));
            },
            MdEvent::MetaEnd => {
                in_meta = false;
                title = title_from_meta(&meta);
                meta = Vec::new();
                subs.push(Some(String::new()));
                proof {
                    assert(meta@ =~= Seq::<char>::empty());
                }
            },
            MdEvent::LinkStart { dest } => {
                let mut handled = false;
                let dv = chars_of(dest.as_str());
                if starts_with(&dv, &sep) {
                    let nm = strip_all_prefix(&dv, &sep);
                    match get_path_for_name(string_of(&nm).as_str(), index) {
                        Some(resolved) => {
                            let base = chars_of(config.output.base_url.as_str());
                            let html = anchor_html(&base, &chars_of(resolved.as_str()));
                            subs.push(Some(string_of(&html)));
                            handled = true;
                        },
                        None => {},
                    }
                }
                if !handled {
                    subs.push(None);
                }
            },
            MdEvent::LinkEnd => {
                let a = chars_of("</a>");
                subs.push(Some(string_of(&a)));
            },
            _ => {
                subs.push(None);
            },
        }
        proof {
            assert(subs_view(subs@)[i as int] == spec_sub_at(
                st,
                evs[i as int],
                index@,
                config.output.base_url@,
                highlight_state.syntax_set,
            ));
        }
        i = i + 1;
    }
    proof {
        assert(evs.take(evs.len() as int) =~= evs);
        assert(subs_view(subs@) =~= spec_subs(
            evs,
            index@,
            config.output.base_url@,
            highlight_state.syntax_set,
        ));
    }
    let content = render_html(input, &subs);
    Ok(Page { title: string_of(&title), content, path: String::new() })
}

} // verus!
