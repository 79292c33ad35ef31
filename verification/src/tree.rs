//! The documented symbol tree, as an outside extractor hands it over:
//! namespaces holding functions, records and enums, each optionally
//! annotated with a parsed comment. Processing renders every comment's
//! brief and description through the markdown renderer and captures
//! the embedded examples into the doctest queue: exactly the fragments
//! of the comments reachable in the tree, in traversal order.

use crate::comment::{Comment, impl_refs_view};
use crate::config::Config;
use crate::doctest::Doctest;
use crate::index::SymbolIndex;
use crate::md::{doc_events_of, html_of};
use crate::render::{
    HighlightState, RenderError, process_markdown, rscan, known_tags, queue_matches, spec_subs,
};
use vstd::prelude::*;

verus! {

/// A documented function or method.
pub struct Function {
    pub name: String,
    pub comment: Option<Comment>,
}

/// A documented enumeration.
pub struct Enum {
    pub name: String,
    pub comment: Option<Comment>,
}

/// A documented class or struct, with its methods and constructors.
pub struct Record {
    pub name: String,
    pub comment: Option<Comment>,
    pub methods: Vec<Function>,
    pub ctor: Vec<Function>,
}

/// A namespace and everything declared under it.
pub struct Namespace {
    pub name: String,
    pub comment: Option<Comment>,
    pub functions: Vec<Function>,
    pub records: Vec<Record>,
    pub enums: Vec<Enum>,
    pub namespaces: Vec<Namespace>,
}

/// Height of a namespace tree, for termination measures.
pub open spec fn ns_height(n: Namespace) -> nat
    decreases n,
{
    1 + nss_height(n.namespaces@)
}

/// Height of a namespace forest.
pub open spec fn nss_height(ns: Seq<Namespace>) -> nat
    decreases ns,
{
    if ns.len() == 0 {
        0
    } else if ns_height(ns[0]) > nss_height(ns.drop_first()) {
        ns_height(ns[0])
    } else {
        nss_height(ns.drop_first())
    }
}

proof fn lemma_nss_height_elem(ns: Seq<Namespace>, i: int)
    requires
        0 <= i < ns.len(),
    ensures
        ns_height(ns[i]) <= nss_height(ns),
    decreases ns,
{
    if i > 0 {
        lemma_nss_height_elem(ns.drop_first(), i - 1);
        assert(ns.drop_first()[i - 1] == ns[i]);
    }
}

/// The queue only ever grows, and what was queued stays unchanged.
pub open spec fn queue_extended(pre: Seq<Doctest>, post: Seq<Doctest>) -> bool {
    post.len() >= pre.len() && forall|j: int| 0 <= j < pre.len() ==> post[j] == pre[j]
}

/// The fragments captured when a comment is rendered: those of its
/// brief, then those of its description.
pub open spec fn comment_captures(c: Option<Comment>, tags: Set<Seq<char>>) -> Seq<
    (Seq<char>, bool),
> {
    match c {
        None => Seq::empty(),
        Some(cm) => rscan(doc_events_of(cm.brief@), tags).captures + rscan(
            doc_events_of(cm.description@),
            tags,
        ).captures,
    }
}

/// The fragments of a list of functions' comments, in order.
pub open spec fn functions_captures(xs: Seq<Function>, tags: Set<Seq<char>>) -> Seq<
    (Seq<char>, bool),
>
    decreases xs,
{
    if xs.len() == 0 {
        Seq::empty()
    } else {
        comment_captures(xs[0].comment, tags) + functions_captures(xs.drop_first(), tags)
    }
}

/// The fragments of a list of enums' comments, in order.
pub open spec fn enums_captures(xs: Seq<Enum>, tags: Set<Seq<char>>) -> Seq<(Seq<char>, bool)>
    decreases xs,
{
    if xs.len() == 0 {
        Seq::empty()
    } else {
        comment_captures(xs[0].comment, tags) + enums_captures(xs.drop_first(), tags)
    }
}

/// The fragments of one record: its own comment, its methods', then
/// its constructors'.
pub open spec fn record_captures(a: Record, tags: Set<Seq<char>>) -> Seq<(Seq<char>, bool)> {
    comment_captures(a.comment, tags) + functions_captures(a.methods@, tags)
        + functions_captures(a.ctor@, tags)
}

/// The fragments of a list of records, in order.
pub open spec fn records_captures(xs: Seq<Record>, tags: Set<Seq<char>>) -> Seq<(Seq<char>, bool)>
    decreases xs,
{
    if xs.len() == 0 {
        Seq::empty()
    } else {
        record_captures(xs[0], tags) + records_captures(xs.drop_first(), tags)
    }
}

/// The fragments of one namespace, in traversal order: its own
/// comment, its functions', its records', its enums', then everything
/// under its nested namespaces.
pub open spec fn namespace_captures(a: Namespace, tags: Set<Seq<char>>) -> Seq<(Seq<char>, bool)>
    decreases a,
{
    comment_captures(a.comment, tags) + functions_captures(a.functions@, tags) + records_captures(
        a.records@,
        tags,
    ) + enums_captures(a.enums@, tags) + namespaces_captures(a.namespaces@, tags)
}

/// The fragments of a namespace forest, in order.
pub open spec fn namespaces_captures(xs: Seq<Namespace>, tags: Set<Seq<char>>) -> Seq<
    (Seq<char>, bool),
>
    decreases xs,
{
    if xs.len() == 0 {
        Seq::empty()
    } else {
        namespace_captures(xs[0], tags) + namespaces_captures(xs.drop_first(), tags)
    }
}

/// The context a scan renders against: the symbol index, the base
/// URL, and the highlighting resources.
pub ghost struct RenderCtx {
    pub index: Seq<(String, String)>,
    pub base: Seq<char>,
    pub ss: syntect::parsing::SyntaxSet,
}

/// The context of one processing call.
pub open spec fn ctx_of(index: SymbolIndex, config: Config, hs: HighlightState) -> RenderCtx {
    RenderCtx { index: index@, base: config.output.base_url@, ss: hs.syntax_set }
}

/// `b` is `a` rendered: present exactly when `a` is, its brief and
/// description the serialized renderings of `a`'s, and the reference
/// list kept as it was.
pub open spec fn comment_rendered(a: Option<Comment>, b: Option<Comment>, ctx: RenderCtx) -> bool {
    match (a, b) {
        (Option::None, Option::None) => true,
        (Option::Some(ca), Option::Some(cb)) => {
            &&& cb.brief@ == html_of(
                ca.brief@,
                spec_subs(doc_events_of(ca.brief@), ctx.index, ctx.base, ctx.ss),
            )
            &&& cb.description@ == html_of(
                ca.description@,
                spec_subs(doc_events_of(ca.description@), ctx.index, ctx.base, ctx.ss),
            )
            &&& impl_refs_view(cb.impl_refs) == impl_refs_view(ca.impl_refs)
        },
        _ => false,
    }
}

/// Rendering a comment succeeds: neither its brief nor its description
/// holds a fence with an unknown tag.
pub open spec fn comment_ok(c: Option<Comment>, tags: Set<Seq<char>>) -> bool {
    match c {
        None => true,
        Some(cm) => !rscan(doc_events_of(cm.brief@), tags).failed && !rscan(
            doc_events_of(cm.description@),
            tags,
        ).failed,
    }
}

pub open spec fn functions_ok(xs: Seq<Function>, tags: Set<Seq<char>>) -> bool {
    forall|j: int| 0 <= j < xs.len() ==> comment_ok((#[trigger] xs[j]).comment, tags)
}

pub open spec fn enums_ok(xs: Seq<Enum>, tags: Set<Seq<char>>) -> bool {
    forall|j: int| 0 <= j < xs.len() ==> comment_ok((#[trigger] xs[j]).comment, tags)
}

pub open spec fn record_ok(a: Record, tags: Set<Seq<char>>) -> bool {
    comment_ok(a.comment, tags) && functions_ok(a.methods@, tags) && functions_ok(a.ctor@, tags)
}

pub open spec fn records_ok(xs: Seq<Record>, tags: Set<Seq<char>>) -> bool {
    forall|j: int| 0 <= j < xs.len() ==> record_ok(#[trigger] xs[j], tags)
}

/// Every comment reachable under the namespace renders without a fatal
/// tag.
pub open spec fn namespace_ok(a: Namespace, tags: Set<Seq<char>>) -> bool
    decreases a,
{
    &&& comment_ok(a.comment, tags)
    &&& functions_ok(a.functions@, tags)
    &&& records_ok(a.records@, tags)
    &&& enums_ok(a.enums@, tags)
    &&& namespaces_ok(a.namespaces@, tags)
}

pub open spec fn namespaces_ok(xs: Seq<Namespace>, tags: Set<Seq<char>>) -> bool
    decreases xs,
{
    xs.len() == 0 || (namespace_ok(xs[0], tags) && namespaces_ok(xs.drop_first(), tags))
}

proof fn lemma_namespaces_ok_build(xs: Seq<Namespace>, tags: Set<Seq<char>>)
    requires
        forall|j: int| 0 <= j < xs.len() ==> namespace_ok(#[trigger] xs[j], tags),
    ensures
        namespaces_ok(xs, tags),
    decreases xs,
{
    if xs.len() > 0 {
        assert(namespace_ok(xs[0], tags));
        assert forall|j: int| 0 <= j < xs.drop_first().len() implies namespace_ok(
            #[trigger] xs.drop_first()[j],
            tags,
        ) by {
            assert(xs.drop_first()[j] == xs[j + 1]);
        }
        lemma_namespaces_ok_build(xs.drop_first(), tags);
    }
}

proof fn lemma_namespaces_ok_elem(xs: Seq<Namespace>, tags: Set<Seq<char>>, i: int)
    requires
        namespaces_ok(xs, tags),
        0 <= i < xs.len(),
    ensures
        namespace_ok(xs[i], tags),
    decreases xs,
{
    if i > 0 {
        lemma_namespaces_ok_elem(xs.drop_first(), tags, i - 1);
        assert(xs.drop_first()[i - 1] == xs[i]);
    }
}

/// `b` is `a` with its comment rendered: the name is kept and the
/// comment is the rendering of the old one.
pub open spec fn function_processed(a: Function, b: Function, ctx: RenderCtx) -> bool {
    b.name@ == a.name@ && comment_rendered(a.comment, b.comment, ctx)
}

pub open spec fn functions_processed(
    xs: Seq<Function>,
    ys: Seq<Function>,
    ctx: RenderCtx,
) -> bool {
    ys.len() == xs.len() && forall|j: int|
        0 <= j < xs.len() ==> function_processed(xs[j], #[trigger] ys[j], ctx)
}

pub open spec fn enum_processed(a: Enum, b: Enum, ctx: RenderCtx) -> bool {
    b.name@ == a.name@ && comment_rendered(a.comment, b.comment, ctx)
}

pub open spec fn enums_processed(xs: Seq<Enum>, ys: Seq<Enum>, ctx: RenderCtx) -> bool {
    ys.len() == xs.len() && forall|j: int|
        0 <= j < xs.len() ==> enum_processed(xs[j], #[trigger] ys[j], ctx)
}

/// `b` is `a` with every comment in it rendered: names kept, comments
/// rendered, methods and constructors processed element by element.
pub open spec fn record_processed(a: Record, b: Record, ctx: RenderCtx) -> bool {
    &&& b.name@ == a.name@
    &&& comment_rendered(a.comment, b.comment, ctx)
    &&& functions_processed(a.methods@, b.methods@, ctx)
    &&& functions_processed(a.ctor@, b.ctor@, ctx)
}

pub open spec fn records_processed(xs: Seq<Record>, ys: Seq<Record>, ctx: RenderCtx) -> bool {
    ys.len() == xs.len() && forall|j: int|
        0 <= j < xs.len() ==> record_processed(xs[j], #[trigger] ys[j], ctx)
}

/// `b` is `a` with every comment reachable under it rendered: names
/// kept, every comment the rendering of the old one, every child
/// processed, the whole shape preserved, recursively.
pub open spec fn namespace_processed(a: Namespace, b: Namespace, ctx: RenderCtx) -> bool
    decreases a,
{
    &&& b.name@ == a.name@
    &&& comment_rendered(a.comment, b.comment, ctx)
    &&& functions_processed(a.functions@, b.functions@, ctx)
    &&& records_processed(a.records@, b.records@, ctx)
    &&& enums_processed(a.enums@, b.enums@, ctx)
    &&& namespaces_processed(a.namespaces@, b.namespaces@, ctx)
}

pub open spec fn namespaces_processed(
    xs: Seq<Namespace>,
    ys: Seq<Namespace>,
    ctx: RenderCtx,
) -> bool
    decreases xs,
{
    &&& ys.len() == xs.len()
    &&& (xs.len() == 0 || (namespace_processed(xs[0], ys[0], ctx) && namespaces_processed(
        xs.drop_first(),
        ys.drop_first(),
        ctx,
    )))
}

proof fn lemma_namespaces_processed_build(xs: Seq<Namespace>, ys: Seq<Namespace>, ctx: RenderCtx)
    requires
        ys.len() == xs.len(),
        forall|j: int| 0 <= j < xs.len() ==> namespace_processed(xs[j], #[trigger] ys[j], ctx),
    ensures
        namespaces_processed(xs, ys, ctx),
    decreases xs,
{
    if xs.len() > 0 {
        assert(namespace_processed(xs[0], ys[0], ctx));
        assert forall|j: int| 0 <= j < xs.drop_first().len() implies namespace_processed(
            xs.drop_first()[j],
            #[trigger] ys.drop_first()[j],
            ctx,
        ) by {
            assert(xs.drop_first()[j] == xs[j + 1]);
            assert(ys.drop_first()[j] == ys[j + 1]);
        }
        lemma_namespaces_processed_build(xs.drop_first(), ys.drop_first(), ctx);
    }
}

/// Two queue extensions in a row are one extension by the
/// concatenated captures.
proof fn lemma_growth_compose(
    q0: Seq<Doctest>,
    q1: Seq<Doctest>,
    q2: Seq<Doctest>,
    a: Seq<(Seq<char>, bool)>,
    b: Seq<(Seq<char>, bool)>,
)
    requires
        q1.len() == q0.len() + a.len(),
        queue_matches(q1.skip(q0.len() as int), a),
        forall|j: int| 0 <= j < q0.len() ==> q1[j] == q0[j],
        q2.len() == q1.len() + b.len(),
        queue_matches(q2.skip(q1.len() as int), b),
        forall|j: int| 0 <= j < q1.len() ==> q2[j] == q1[j],
    ensures
        q2.len() == q0.len() + (a + b).len(),
        queue_matches(q2.skip(q0.len() as int), a + b),
        forall|j: int| 0 <= j < q0.len() ==> q2[j] == q0[j],
{
    assert forall|j: int| 0 <= j < (a + b).len() implies crate::render::doctest_matches(
        #[trigger] q2.skip(q0.len() as int)[j],
        (a + b)[j].0,
        (a + b)[j].1,
    ) by {
        if j < a.len() {
            assert(q2.skip(q0.len() as int)[j] == q2[q0.len() + j]);
            assert(q2[q0.len() + j] == q1[q0.len() + j]);
            assert(q1.skip(q0.len() as int)[j] == q1[q0.len() + j]);
        } else {
            assert(q2.skip(q0.len() as int)[j] == q2[q0.len() + j]);
            assert(q2.skip(q1.len() as int)[j - a.len()] == q2[q1.len() + (j - a.len())]);
            assert(q1.len() + (j - a.len()) == q0.len() + j);
        }
    }
}

proof fn lemma_fc_take(xs: Seq<Function>, tags: Set<Seq<char>>, i: int)
    requires
        0 <= i < xs.len(),
    ensures
        functions_captures(xs.take(i + 1), tags) == functions_captures(xs.take(i), tags)
            + comment_captures(xs[i].comment, tags),
    decreases i,
{
    if i == 0 {
        assert(xs.take(1)[0] == xs[0]);
        assert(xs.take(1).drop_first() =~= xs.take(0));
        assert(xs.take(0).len() == 0);
        assert(functions_captures(xs.take(0), tags) =~= Seq::<(Seq<char>, bool)>::empty());
        assert(functions_captures(xs.take(1), tags) =~= comment_captures(xs[0].comment, tags));
        assert(functions_captures(xs.take(0), tags) + comment_captures(xs[0].comment, tags)
            =~= comment_captures(xs[0].comment, tags));
    } else {
        let t = xs.drop_first();
        lemma_fc_take(t, tags, i - 1);
        assert(xs.take(i + 1)[0] == xs[0]);
        assert(xs.take(i + 1).drop_first() =~= t.take(i));
        assert(xs.take(i)[0] == xs[0]);
        assert(xs.take(i).drop_first() =~= t.take(i - 1));
        assert(t[i - 1] == xs[i]);
        assert(comment_captures(xs[0].comment, tags) + (functions_captures(t.take(i - 1), tags)
            + comment_captures(xs[i].comment, tags)) =~= (comment_captures(xs[0].comment, tags)
            + functions_captures(t.take(i - 1), tags)) + comment_captures(xs[i].comment, tags));
    }
}

proof fn lemma_ec_take(xs: Seq<Enum>, tags: Set<Seq<char>>, i: int)
    requires
        0 <= i < xs.len(),
    ensures
        enums_captures(xs.take(i + 1), tags) == enums_captures(xs.take(i), tags)
            + comment_captures(xs[i].comment, tags),
    decreases i,
{
    if i == 0 {
        assert(xs.take(1)[0] == xs[0]);
        assert(xs.take(1).drop_first() =~= xs.take(0));
        assert(xs.take(0).len() == 0);
        assert(enums_captures(xs.take(0), tags) =~= Seq::<(Seq<char>, bool)>::empty());
        assert(enums_captures(xs.take(1), tags) =~= comment_captures(xs[0].comment, tags));
        assert(enums_captures(xs.take(0), tags) + comment_captures(xs[0].comment, tags)
            =~= comment_captures(xs[0].comment, tags));
    } else {
        let t = xs.drop_first();
        lemma_ec_take(t, tags, i - 1);
        assert(xs.take(i + 1)[0] == xs[0]);
        assert(xs.take(i + 1).drop_first() =~= t.take(i));
        assert(xs.take(i)[0] == xs[0]);
        assert(xs.take(i).drop_first() =~= t.take(i - 1));
        assert(t[i - 1] == xs[i]);
        assert(comment_captures(xs[0].comment, tags) + (enums_captures(t.take(i - 1), tags)
            + comment_captures(xs[i].comment, tags)) =~= (comment_captures(xs[0].comment, tags)
            + enums_captures(t.take(i - 1), tags)) + comment_captures(xs[i].comment, tags));
    }
}

proof fn lemma_rc_take(xs: Seq<Record>, tags: Set<Seq<char>>, i: int)
    requires
        0 <= i < xs.len(),
    ensures
        records_captures(xs.take(i + 1), tags) == records_captures(xs.take(i), tags)
            + record_captures(xs[i], tags),
    decreases i,
{
    if i == 0 {
        assert(xs.take(1)[0] == xs[0]);
        assert(xs.take(1).drop_first() =~= xs.take(0));
        assert(xs.take(0).len() == 0);
        assert(records_captures(xs.take(0), tags) =~= Seq::<(Seq<char>, bool)>::empty());
        assert(records_captures(xs.take(1), tags) =~= record_captures(xs[0], tags));
        assert(records_captures(xs.take(0), tags) + record_captures(xs[0], tags)
            =~= record_captures(xs[0], tags));
    } else {
        let t = xs.drop_first();
        lemma_rc_take(t, tags, i - 1);
        assert(xs.take(i + 1)[0] == xs[0]);
        assert(xs.take(i + 1).drop_first() =~= t.take(i));
        assert(xs.take(i)[0] == xs[0]);
        assert(xs.take(i).drop_first() =~= t.take(i - 1));
        assert(t[i - 1] == xs[i]);
        assert(record_captures(xs[0], tags) + (records_captures(t.take(i - 1), tags)
            + record_captures(xs[i], tags)) =~= (record_captures(xs[0], tags) + records_captures(
            t.take(i - 1),
            tags,
        )) + record_captures(xs[i], tags));
    }
}

proof fn lemma_nc_take(xs: Seq<Namespace>, tags: Set<Seq<char>>, i: int)
    requires
        0 <= i < xs.len(),
    ensures
        namespaces_captures(xs.take(i + 1), tags) == namespaces_captures(xs.take(i), tags)
            + namespace_captures(xs[i], tags),
    decreases i,
{
    if i == 0 {
        assert(xs.take(1)[0] == xs[0]);
        assert(xs.take(1).drop_first() =~= xs.take(0));
        assert(xs.take(0).len() == 0);
        assert(namespaces_captures(xs.take(0), tags) =~= Seq::<(Seq<char>, bool)>::empty());
        assert(namespaces_captures(xs.take(1), tags) =~= namespace_captures(xs[0], tags));
        assert(namespaces_captures(xs.take(0), tags) + namespace_captures(xs[0], tags)
            =~= namespace_captures(xs[0], tags));
    } else {
        let t = xs.drop_first();
        lemma_nc_take(t, tags, i - 1);
        assert(xs.take(i + 1)[0] == xs[0]);
        assert(xs.take(i + 1).drop_first() =~= t.take(i));
        assert(xs.take(i)[0] == xs[0]);
        assert(xs.take(i).drop_first() =~= t.take(i - 1));
        assert(t[i - 1] == xs[i]);
        assert(namespace_captures(xs[0], tags) + (namespaces_captures(t.take(i - 1), tags)
            + namespace_captures(xs[i], tags)) =~= (namespace_captures(xs[0], tags)
            + namespaces_captures(t.take(i - 1), tags)) + namespace_captures(xs[i], tags));
    }
}

fn clone_comment(c: &Comment) -> (r: Comment)
    ensures
        r.brief@ == c.brief@,
        r.description@ == c.description@,
        crate::comment::impl_refs_view(r.impl_refs) == crate::comment::impl_refs_view(
            c.impl_refs,
        ),
{
    let impl_refs: Option<Vec<String>> = match &c.impl_refs {
        None => None,
        Some(rv) => {
            let mut out: Vec<String> = Vec::new();
            let mut k: usize = 0;
            while k < rv.len()
                invariant
                    k <= rv@.len(),
                    out@.len() == k,
                    forall|j: int| 0 <= j < k ==> out@[j]@ == rv@[j]@,
                decreases rv@.len() - k,
            {
                out.push(rv[k].clone());
                k = k + 1;
            }
            proof {
                assert forall|j: int| 0 <= j < out@.len() implies crate::text::str_views(out@)[j]
                    == crate::text::str_views(rv@)[j] by {
                    assert(out@[j]@ == rv@[j]@);
                }
                assert(crate::text::str_views(out@) =~= crate::text::str_views(rv@));
            }
            Some(out)
        },
    };
    Comment { brief: c.brief.clone(), description: c.description.clone(), impl_refs }
}

/// Render the comment of one declaration: brief and description each
/// become rendered HTML; the reference list is kept as it is. The
/// queue grows by exactly the comment's captured fragments: brief's,
/// then description's.
fn process_comment(
    comment: &Option<Comment>,
    index: &SymbolIndex,
    doctests: &mut Vec<Doctest>,
    config: &Config,
    highlight_state: &HighlightState,
) -> (r: Result<Option<Comment>, RenderError>)
    ensures
        queue_extended(old(doctests)@, final(doctests)@),
        r is Ok <==> comment_ok(*comment, known_tags(highlight_state.syntax_set)),
        r matches Ok(c) ==> ({
            let caps = comment_captures(*comment, known_tags(highlight_state.syntax_set));
            &&& (c is Some <==> *comment is Some)
            &&& comment_rendered(*comment, c, ctx_of(*index, *config, *highlight_state))
            &&& final(doctests)@.len() == old(doctests)@.len() + caps.len()
            &&& queue_matches(final(doctests)@.skip(old(doctests)@.len() as int), caps)
            &&& (*comment is None ==> final(doctests)@ == old(doctests)@)
        }),
{
    match comment {
        None => {
            proof {
                assert(doctests@.skip(doctests@.len() as int) =~= Seq::<Doctest>::empty());
            }
            Ok(None)
        },
        Some(c) => {
            let ghost q0 = doctests@;
            let ghost tags = known_tags(highlight_state.syntax_set);
            let brief_page = match process_markdown(
                c.brief.as_str(),
                index,
                doctests,
                config,
                highlight_state,
            ) {
                Ok(p) => p,
                Err(e) => {
                    proof {
                        assert(rscan(doc_events_of(c.brief@), tags).failed);
                        assert(!comment_ok(*comment, tags));
                    }
                    return Err(e);
                },
            };
            let ghost q1 = doctests@;
            let desc_page = match process_markdown(
                c.description.as_str(),
                index,
                doctests,
                config,
                highlight_state,
            ) {
                Ok(p) => p,
                Err(e) => {
                    proof {
                        assert(rscan(doc_events_of(c.description@), tags).failed);
                        assert(!comment_ok(*comment, tags));
                        assert(doctests@.len() >= q0.len());
                        assert(forall|j: int| 0 <= j < q0.len() ==> doctests@[j] == q0[j]);
                    }
                    return Err(e);
                },
            };
            proof {
                lemma_growth_compose(
                    q0,
                    q1,
                    doctests@,
                    rscan(doc_events_of(c.brief@), tags).captures,
                    rscan(doc_events_of(c.description@), tags).captures,
                );
                assert(comment_ok(*comment, tags));
            }
            let cloned = clone_comment(c);
            Ok(
                Some(
                    Comment {
                        brief: brief_page.content,
                        description: desc_page.content,
                        impl_refs: cloned.impl_refs,
                    },
                ),
            )
        },
    }
}

/// Render the comment of a function: the name is kept, the comment
/// becomes the rendering of the old one, and the queue grows by
/// exactly the comment's fragments — by nothing when there is no
/// comment. The call succeeds exactly when the comment renders.
pub fn process_function(
    func: &Function,
    index: &SymbolIndex,
    doctests: &mut Vec<Doctest>,
    config: &Config,
    highlight_state: &HighlightState,
) -> (r: Result<Function, RenderError>)
    ensures
        queue_extended(old(doctests)@, final(doctests)@),
        r is Ok <==> comment_ok(func.comment, known_tags(highlight_state.syntax_set)),
        r matches Ok(f) ==> ({
            let caps = comment_captures(func.comment, known_tags(highlight_state.syntax_set));
            &&& function_processed(*func, f, ctx_of(*index, *config, *highlight_state))
            &&& final(doctests)@.len() == old(doctests)@.len() + caps.len()
            &&& queue_matches(final(doctests)@.skip(old(doctests)@.len() as int), caps)
            &&& (func.comment is None ==> final(doctests)@ == old(doctests)@)
        }),
{
    let comment = match process_comment(&func.comment, index, doctests, config, highlight_state) {
        Ok(c) => c,
        Err(e) => {
            return Err(e);
        },
    };
    Ok(Function { name: func.name.clone(), comment })
}

/// Render the comment of an enumeration, as `process_function` does
/// for a function.
pub fn process_enum(
    enm: &Enum,
    index: &SymbolIndex,
    doctests: &mut Vec<Doctest>,
    config: &Config,
    highlight_state: &HighlightState,
) -> (r: Result<Enum, RenderError>)
    ensures
        queue_extended(old(doctests)@, final(doctests)@),
        r is Ok <==> comment_ok(enm.comment, known_tags(highlight_state.syntax_set)),
        r matches Ok(f) ==> ({
            let caps = comment_captures(enm.comment, known_tags(highlight_state.syntax_set));
            &&& enum_processed(*enm, f, ctx_of(*index, *config, *highlight_state))
            &&& final(doctests)@.len() == old(doctests)@.len() + caps.len()
            &&& queue_matches(final(doctests)@.skip(old(doctests)@.len() as int), caps)
        }),
{
    let comment = match process_comment(&enm.comment, index, doctests, config, highlight_state) {
        Ok(c) => c,
        Err(e) => {
            return Err(e);
        },
    };
    Ok(Enum { name: enm.name.clone(), comment })
}

fn process_functions(
    funcs: &Vec<Function>,
    index: &SymbolIndex,
    doctests: &mut Vec<Doctest>,
    config: &Config,
    highlight_state: &HighlightState,
) -> (r: Result<Vec<Function>, RenderError>)
    ensures
        queue_extended(old(doctests)@, final(doctests)@),
        r is Ok <==> functions_ok(funcs@, known_tags(highlight_state.syntax_set)),
        r matches Ok(fs) ==> ({
            let caps = functions_captures(funcs@, known_tags(highlight_state.syntax_set));
            &&& functions_processed(funcs@, fs@, ctx_of(*index, *config, *highlight_state))
            &&& final(doctests)@.len() == old(doctests)@.len() + caps.len()
            &&& queue_matches(final(doctests)@.skip(old(doctests)@.len() as int), caps)
        }),
{
    let ghost d0 = old(doctests)@;
    let ghost tags = known_tags(highlight_state.syntax_set);
    let ghost ctx = ctx_of(*index, *config, *highlight_state);
    let mut out: Vec<Function> = Vec::new();
    let mut i: usize = 0;
    proof {
        assert(funcs@.take(0) =~= Seq::<Function>::empty());
        assert(doctests@.skip(d0.len() as int) =~= Seq::<Doctest>::empty());
    }
    while i < funcs.len()
        invariant
            i <= funcs@.len(),
            out@.len() == i,
            d0 == old(doctests)@,
            tags == known_tags(highlight_state.syntax_set),
            ctx == ctx_of(*index, *config, *highlight_state),
            forall|k: int| 0 <= k < i ==> function_processed(funcs@[k], #[trigger] out@[k], ctx),
            forall|k: int| 0 <= k < i ==> comment_ok((#[trigger] funcs@[k]).comment, tags),
            doctests@.len() == d0.len() + functions_captures(funcs@.take(i as int), tags).len(),
            forall|j: int| 0 <= j < d0.len() ==> doctests@[j] == d0[j],
            queue_matches(
                doctests@.skip(d0.len() as int),
                functions_captures(funcs@.take(i as int), tags),
            ),
        decreases funcs@.len() - i,
    {
        let ghost q1 = doctests@;
        match process_function(&funcs[i], index, doctests, config, highlight_state) {
            Ok(f) => {
                out.push(f);
            },
            Err(e) => {
                proof {
                    assert(!comment_ok(funcs@[i as int].comment, tags));
                    assert(!functions_ok(funcs@, tags));
                    assert(doctests@.len() >= d0.len());
                    assert(forall|j: int| 0 <= j < d0.len() ==> doctests@[j] == d0[j]);
                }
                return Err(e);
            },
        }
        proof {
            lemma_growth_compose(
                d0,
                q1,
                doctests@,
                functions_captures(funcs@.take(i as int), tags),
                comment_captures(funcs@[i as int].comment, tags),
            );
            lemma_fc_take(funcs@, tags, i as int);
        }
        i = i + 1;
    }
    proof {
        assert(funcs@.take(funcs@.len() as int) =~= funcs@);
        assert(functions_ok(funcs@, tags));
    }
    Ok(out)
}

/// Render every comment of a record: its own, its methods', and its
/// constructors', in that order; the shape of the record is kept,
/// every comment becomes the rendering of the old one, and the queue
/// grows by exactly the fragments found. The call succeeds exactly
/// when every comment of the record renders.
pub fn process_record(
    record: &Record,
    index: &SymbolIndex,
    doctests: &mut Vec<Doctest>,
    config: &Config,
    highlight_state: &HighlightState,
) -> (r: Result<Record, RenderError>)
    ensures
        queue_extended(old(doctests)@, final(doctests)@),
        r is Ok <==> record_ok(*record, known_tags(highlight_state.syntax_set)),
        r matches Ok(rec) ==> ({
            let caps = record_captures(*record, known_tags(highlight_state.syntax_set));
            &&& record_processed(*record, rec, ctx_of(*index, *config, *highlight_state))
            &&& final(doctests)@.len() == old(doctests)@.len() + caps.len()
            &&& queue_matches(final(doctests)@.skip(old(doctests)@.len() as int), caps)
        }),
{
    let ghost d0 = old(doctests)@;
    let ghost tags = known_tags(highlight_state.syntax_set);
    let comment = match process_comment(
        &record.comment,
        index,
        doctests,
        config,
        highlight_state,
    ) {
        Ok(c) => c,
        Err(e) => {
            proof {
                assert(!record_ok(*record, tags));
            }
            return Err(e);
        },
    };
    let ghost q1 = doctests@;
    let methods = match process_functions(&record.methods, index, doctests, config, highlight_state) {
        Ok(fs) => fs,
        Err(e) => {
            proof {
                assert(!record_ok(*record, tags));
                assert(doctests@.len() >= d0.len());
                assert(forall|j: int| 0 <= j < d0.len() ==> doctests@[j] == d0[j]);
            }
            return Err(e);
        },
    };
    proof {
        lemma_growth_compose(
            d0,
            q1,
            doctests@,
            comment_captures(record.comment, tags),
            functions_captures(record.methods@, tags),
        );
    }
    let ghost q2 = doctests@;
    let ctor = match process_functions(&record.ctor, index, doctests, config, highlight_state) {
        Ok(fs) => fs,
        Err(e) => {
            proof {
                assert(!record_ok(*record, tags));
                assert(doctests@.len() >= d0.len());
                assert(forall|j: int| 0 <= j < d0.len() ==> doctests@[j] == d0[j]);
            }
            return Err(e);
        },
    };
    proof {
        lemma_growth_compose(
            d0,
            q2,
            doctests@,
            comment_captures(record.comment, tags) + functions_captures(record.methods@, tags),
            functions_captures(record.ctor@, tags),
        );
    }
    Ok(Record { name: record.name.clone(), comment, methods, ctor })
}

fn process_enums(
    enums: &Vec<Enum>,
    index: &SymbolIndex,
    doctests: &mut Vec<Doctest>,
    config: &Config,
    highlight_state: &HighlightState,
) -> (r: Result<Vec<Enum>, RenderError>)
    ensures
        queue_extended(old(doctests)@, final(doctests)@),
        r is Ok <==> enums_ok(enums@, known_tags(highlight_state.syntax_set)),
        r matches Ok(es) ==> ({
            let caps = enums_captures(enums@, known_tags(highlight_state.syntax_set));
            &&& enums_processed(enums@, es@, ctx_of(*index, *config, *highlight_state))
            &&& final(doctests)@.len() == old(doctests)@.len() + caps.len()
            &&& queue_matches(final(doctests)@.skip(old(doctests)@.len() as int), caps)
        }),
{
    let ghost d0 = old(doctests)@;
    let ghost tags = known_tags(highlight_state.syntax_set);
    let ghost ctx = ctx_of(*index, *config, *highlight_state);
    let mut out: Vec<Enum> = Vec::new();
    let mut i: usize = 0;
    proof {
        assert(enums@.take(0) =~= Seq::<Enum>::empty());
        assert(doctests@.skip(d0.len() as int) =~= Seq::<Doctest>::empty());
    }
    while i < enums.len()
        invariant
            i <= enums@.len(),
            out@.len() == i,
            d0 == old(doctests)@,
            tags == known_tags(highlight_state.syntax_set),
            ctx == ctx_of(*index, *config, *highlight_state),
            forall|k: int| 0 <= k < i ==> enum_processed(enums@[k], #[trigger] out@[k], ctx),
            forall|k: int| 0 <= k < i ==> comment_ok((#[trigger] enums@[k]).comment, tags),
            doctests@.len() == d0.len() + enums_captures(enums@.take(i as int), tags).len(),
            forall|j: int| 0 <= j < d0.len() ==> doctests@[j] == d0[j],
            queue_matches(
                doctests@.skip(d0.len() as int),
                enums_captures(enums@.take(i as int), tags),
            ),
        decreases enums@.len() - i,
    {
        let ghost q1 = doctests@;
        match process_enum(&enums[i], index, doctests, config, highlight_state) {
            Ok(e) => {
                out.push(e);
            },
            Err(e) => {
                proof {
                    assert(!comment_ok(enums@[i as int].comment, tags));
                    assert(!enums_ok(enums@, tags));
                    assert(doctests@.len() >= d0.len());
                    assert(forall|j: int| 0 <= j < d0.len() ==> doctests@[j] == d0[j]);
                }
                return Err(e);
            },
        }
        proof {
            lemma_growth_compose(
                d0,
                q1,
                doctests@,
                enums_captures(enums@.take(i as int), tags),
                comment_captures(enums@[i as int].comment, tags),
            );
            lemma_ec_take(enums@, tags, i as int);
        }
        i = i + 1;
    }
    proof {
        assert(enums@.take(enums@.len() as int) =~= enums@);
        assert(enums_ok(enums@, tags));
    }
    Ok(out)
}

/// Render every comment under a namespace, recursively: its own, its
/// functions', its records', its enums', and everything under its
/// nested namespaces, in traversal order. The whole tree shape is
/// kept, every comment becomes the rendering of the old one, and the
/// queue grows by exactly the fragments found. The call succeeds
/// exactly when every comment reachable under the namespace renders.
pub fn process_namespace(
    namespace: &Namespace,
    index: &SymbolIndex,
    doctests: &mut Vec<Doctest>,
    config: &Config,
    highlight_state: &HighlightState,
) -> (r: Result<Namespace, RenderError>)
    ensures
        queue_extended(old(doctests)@, final(doctests)@),
        r is Ok <==> namespace_ok(*namespace, known_tags(highlight_state.syntax_set)),
        r matches Ok(ns) ==> ({
            let caps = namespace_captures(*namespace, known_tags(highlight_state.syntax_set));
            &&& namespace_processed(*namespace, ns, ctx_of(*index, *config, *highlight_state))
            &&& final(doctests)@.len() == old(doctests)@.len() + caps.len()
            &&& queue_matches(final(doctests)@.skip(old(doctests)@.len() as int), caps)
        }),
    decreases ns_height(*namespace),
{
    let ghost d0 = old(doctests)@;
    let ghost tags = known_tags(highlight_state.syntax_set);
    let ghost ctx = ctx_of(*index, *config, *highlight_state);
    let comment = match process_comment(
        &namespace.comment,
        index,
        doctests,
        config,
        highlight_state,
    ) {
        Ok(c) => c,
        Err(e) => {
            proof {
                assert(!namespace_ok(*namespace, tags));
            }
            return Err(e);
        },
    };
    let ghost q1 = doctests@;
    let functions = match process_functions(
        &namespace.functions,
        index,
        doctests,
        config,
        highlight_state,
    ) {
        Ok(fs) => fs,
        Err(e) => {
            proof {
                assert(!namespace_ok(*namespace, tags));
                assert(doctests@.len() >= d0.len());
                assert(forall|j: int| 0 <= j < d0.len() ==> doctests@[j] == d0[j]);
            }
            return Err(e);
        },
    };
    proof {
        lemma_growth_compose(
            d0,
            q1,
            doctests@,
            comment_captures(namespace.comment, tags),
            functions_captures(namespace.functions@, tags),
        );
    }
    let ghost caps2 = comment_captures(namespace.comment, tags) + functions_captures(
        namespace.functions@,
        tags,
    );

    let mut records: Vec<Record> = Vec::new();
    let mut i: usize = 0;
    proof {
        assert(namespace.records@.take(0) =~= Seq::<Record>::empty());
        assert(records_captures(namespace.records@.take(0), tags) =~= Seq::<
            (Seq<char>, bool),
        >::empty());
        assert(caps2 + records_captures(namespace.records@.take(0), tags) =~= caps2);
    }
    while i < namespace.records.len()
        invariant
            i <= namespace.records@.len(),
            records@.len() == i,
            d0 == old(doctests)@,
            tags == known_tags(highlight_state.syntax_set),
            caps2 == comment_captures(namespace.comment, tags) + functions_captures(
                namespace.functions@,
                tags,
            ),
            ctx == ctx_of(*index, *config, *highlight_state),
            forall|k: int|
                0 <= k < i ==> record_processed(
                    namespace.records@[k],
                    #[trigger] records@[k],
                    ctx,
                ),
            forall|k: int| 0 <= k < i ==> record_ok(#[trigger] namespace.records@[k], tags),
            doctests@.len() == d0.len() + (caps2 + records_captures(
                namespace.records@.take(i as int),
                tags,
            )).len(),
            forall|j: int| 0 <= j < d0.len() ==> doctests@[j] == d0[j],
            queue_matches(
                doctests@.skip(d0.len() as int),
                caps2 + records_captures(namespace.records@.take(i as int), tags),
            ),
        decreases namespace.records@.len() - i,
    {
        let ghost qa = doctests@;
        match process_record(&namespace.records[i], index, doctests, config, highlight_state) {
            Ok(rec) => {
                records.push(rec);
            },
            Err(e) => {
                proof {
                    assert(!record_ok(namespace.records@[i as int], tags));
                    assert(!records_ok(namespace.records@, tags));
                    assert(!namespace_ok(*namespace, tags));
                    assert(doctests@.len() >= d0.len());
                    assert(forall|j: int| 0 <= j < d0.len() ==> doctests@[j] == d0[j]);
                }
                return Err(e);
            },
        }
        proof {
            lemma_growth_compose(
                d0,
                qa,
                doctests@,
                caps2 + records_captures(namespace.records@.take(i as int), tags),
                record_captures(namespace.records@[i as int], tags),
            );
            lemma_rc_take(namespace.records@, tags, i as int);
            assert((caps2 + records_captures(namespace.records@.take(i as int), tags))
                + record_captures(namespace.records@[i as int], tags) =~= caps2
                + records_captures(namespace.records@.take(i + 1), tags));
        }
        i = i + 1;
    }
    proof {
        assert(namespace.records@.take(namespace.records@.len() as int) =~= namespace.records@);
    }
    let ghost caps3 = caps2 + records_captures(namespace.records@, tags);

    let ghost q3 = doctests@;
    let enums = match process_enums(&namespace.enums, index, doctests, config, highlight_state) {
        Ok(es) => es,
        Err(e) => {
            proof {
                assert(!namespace_ok(*namespace, tags));
                assert(doctests@.len() >= d0.len());
                assert(forall|j: int| 0 <= j < d0.len() ==> doctests@[j] == d0[j]);
            }
            return Err(e);
        },
    };
    proof {
        lemma_growth_compose(d0, q3, doctests@, caps3, enums_captures(namespace.enums@, tags));
    }
    let ghost caps4 = caps3 + enums_captures(namespace.enums@, tags);

    let mut namespaces: Vec<Namespace> = Vec::new();
    let mut i: usize = 0;
    proof {
        assert(namespace.namespaces@.take(0) =~= Seq::<Namespace>::empty());
        assert(namespaces_captures(namespace.namespaces@.take(0), tags) =~= Seq::<
            (Seq<char>, bool),
        >::empty());
        assert(caps4 + namespaces_captures(namespace.namespaces@.take(0), tags) =~= caps4);
    }
    while i < namespace.namespaces.len()
        invariant
            i <= namespace.namespaces@.len(),
            namespaces@.len() == i,
            d0 == old(doctests)@,
            tags == known_tags(highlight_state.syntax_set),
            caps4 == comment_captures(namespace.comment, tags) + functions_captures(
                namespace.functions@,
                tags,
            ) + records_captures(namespace.records@, tags) + enums_captures(
                namespace.enums@,
                tags,
            ),
            ctx == ctx_of(*index, *config, *highlight_state),
            forall|k: int|
                0 <= k < i ==> namespace_processed(
                    namespace.namespaces@[k],
                    #[trigger] namespaces@[k],
                    ctx,
                ),
            forall|k: int|
                0 <= k < i ==> namespace_ok(#[trigger] namespace.namespaces@[k], tags),
            doctests@.len() == d0.len() + (caps4 + namespaces_captures(
                namespace.namespaces@.take(i as int),
                tags,
            )).len(),
            forall|j: int| 0 <= j < d0.len() ==> doctests@[j] == d0[j],
            queue_matches(
                doctests@.skip(d0.len() as int),
                caps4 + namespaces_captures(namespace.namespaces@.take(i as int), tags),
            ),
        decreases namespace.namespaces@.len() - i,
    {
        proof {
            lemma_nss_height_elem(namespace.namespaces@, i as int);
        }
        let ghost qa = doctests@;
        match process_namespace(
            &namespace.namespaces[i],
            index,
            doctests,
            config,
            highlight_state,
        ) {
            Ok(ns) => {
                namespaces.push(ns);
            },
            Err(e) => {
                proof {
                    assert(!namespace_ok(namespace.namespaces@[i as int], tags));
                    if namespaces_ok(namespace.namespaces@, tags) {
                        lemma_namespaces_ok_elem(namespace.namespaces@, tags, i as int);
                    }
                    assert(!namespaces_ok(namespace.namespaces@, tags));
                    assert(!namespace_ok(*namespace, tags));
                    assert(doctests@.len() >= d0.len());
                    assert(forall|j: int| 0 <= j < d0.len() ==> doctests@[j] == d0[j]);
                }
                return Err(e);
            },
        }
        proof {
            lemma_growth_compose(
                d0,
                qa,
                doctests@,
                caps4 + namespaces_captures(namespace.namespaces@.take(i as int), tags),
                namespace_captures(namespace.namespaces@[i as int], tags),
            );
            lemma_nc_take(namespace.namespaces@, tags, i as int);
            assert((caps4 + namespaces_captures(namespace.namespaces@.take(i as int), tags))
                + namespace_captures(namespace.namespaces@[i as int], tags) =~= caps4
                + namespaces_captures(namespace.namespaces@.take(i + 1), tags));
        }
        i = i + 1;
    }
    proof {
        assert(namespace.namespaces@.take(namespace.namespaces@.len() as int)
            =~= namespace.namespaces@);
        lemma_namespaces_processed_build(namespace.namespaces@, namespaces@, ctx);
        lemma_namespaces_ok_build(namespace.namespaces@, tags);
        assert(namespace_ok(*namespace, tags));
    }
    Ok(
        Namespace {
            name: namespace.name.clone(),
            comment,
            functions,
            records,
            enums,
            namespaces,
        },
    )
}

} // verus!
