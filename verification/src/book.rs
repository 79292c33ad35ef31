//! The outline ("book") builder: a nested-list markdown document
//! becomes a numbered hierarchical page tree.
//!
//! Headings become `Section` segments; each list item's link becomes a
//! `Page`, nested lists becoming its `sub_pages`. A numbering pass then
//! gives every numbered page a dotted-decimal number: a top-level
//! numbered page gets the next bare integer, and a page's child at
//! 1-based position `j` gets its parent's number with `.j` appended.

use crate::md::{MdEvent, outline_events, outline_events_of};
use crate::text::{
    spec_join, spec_dec_int, spec_dec_nat, chars_of, string_of, copy_chars, dec_u64, join_char,
    extend_chars, views_of,
};
use vstd::prelude::*;

verus! {

/// One page of the outline tree.
#[derive(Debug, PartialEq)]
pub struct Page {
    /// The link text.
    pub name: String,
    /// The link destination joined onto the base directory.
    pub path: String,
    /// The pages of the list nested under this page's item.
    pub sub_pages: Vec<Page>,
    /// Dotted-decimal number; empty while unnumbered.
    pub number: String,
    /// Whether the page was found inside at least one enclosing list.
    pub numbered: bool,
}

/// One top-level element of the outline: a heading or a page.
#[derive(Debug, PartialEq)]
pub enum Segment {
    Section(String),
    Page(Page),
}

/// The whole outline document.
#[derive(Debug, PartialEq)]
pub struct Summary {
    pub segments: Vec<Segment>,
}

/// Mathematical model of a page.
pub ghost struct PageV {
    pub name: Seq<char>,
    pub path: Seq<char>,
    pub sub_pages: Seq<PageV>,
    pub number: Seq<char>,
    pub numbered: bool,
}

/// Mathematical model of a segment.
pub ghost enum SegmentV {
    Section(Seq<char>),
    Page(PageV),
}

pub open spec fn empty_page_v() -> PageV {
    PageV {
        name: Seq::empty(),
        path: Seq::empty(),
        sub_pages: Seq::empty(),
        number: Seq::empty(),
        numbered: false,
    }
}

pub open spec fn pages_view(ps: Seq<Page>) -> Seq<PageV>
    decreases ps,
{
    Seq::new(
        ps.len(),
        |i: int|
            if 0 <= i < ps.len() {
                page_view(ps[i])
            } else {
                empty_page_v()
            },
    )
}

pub open spec fn page_view(p: Page) -> PageV
    decreases p,
{
    PageV {
        name: p.name@,
        path: p.path@,
        sub_pages: pages_view(p.sub_pages@),
        number: p.number@,
        numbered: p.numbered,
    }
}

pub open spec fn seg_view(s: Segment) -> SegmentV {
    match s {
        Segment::Section(t) => SegmentV::Section(t@),
        Segment::Page(p) => SegmentV::Page(page_view(p)),
    }
}

pub open spec fn segs_view(ss: Seq<Segment>) -> Seq<SegmentV> {
    ss.map_values(|s: Segment| seg_view(s))
}

pub open spec fn summary_view(s: Summary) -> Seq<SegmentV> {
    segs_view(s.segments@)
}

impl Default for Page {
    /// An empty, unnumbered page.
    fn default() -> (r: Page)
        ensures
            page_view(r) == empty_page_v(),
    {
        let r = Page {
            name: String::new(),
            path: String::new(),
            sub_pages: Vec::new(),
            number: String::new(),
            numbered: false,
        };
        proof {
            assert(pages_view(r.sub_pages@) =~= Seq::<PageV>::empty());
        }
        r
    }
}

impl Default for Summary {
    /// A summary without segments.
    fn default() -> (r: Summary)
        ensures
            summary_view(r) == Seq::<SegmentV>::empty(),
    {
        let r = Summary { segments: Vec::new() };
        proof {
            assert(summary_view(r) =~= Seq::<SegmentV>::empty());
        }
        r
    }
}

/// Joining a relative destination onto a base directory, with `/` as
/// the separator: an absolute destination stands alone, an empty base
/// contributes nothing.
pub open spec fn spec_join_path(base: Seq<char>, rel: Seq<char>) -> Seq<char> {
    if rel.len() > 0 && rel[0] == '/' {
        rel
    } else if base.len() == 0 {
        rel
    } else if base[base.len() - 1] == '/' {
        base + rel
    } else {
        base + seq!['/'] + rel
    }
}

fn join_path_chars(base: &Vec<char>, rel: &Vec<char>) -> (r: Vec<char>)
    ensures
        r@ == spec_join_path(base@, rel@),
{
    if rel.len() > 0 && rel[0] == '/' {
        copy_chars(rel)
    } else if base.len() == 0 {
        copy_chars(rel)
    } else if base[base.len() - 1] == '/' {
        let mut r = copy_chars(base);
        extend_chars(&mut r, rel);
        r
    } else {
        let mut r = copy_chars(base);
        r.push('/');
        extend_chars(&mut r, rel);
        proof {
            assert(r@ =~= base@ + seq!['/'] + rel@);
        }
        r
    }
}

/// The sequence of integers a number path holds.
pub open spec fn ints_of(path: Seq<u64>) -> Seq<int> {
    path.map_values(|n: u64| n as int)
}

/// The dotted-decimal form of a number path.
pub open spec fn spec_number_string(path: Seq<int>) -> Seq<char> {
    spec_join(path.map_values(|n: int| spec_dec_int(n)), '.')
}

fn join_nums(path: &Vec<u64>) -> (r: Vec<char>)
    ensures
        r@ == spec_number_string(ints_of(path@)),
{
    let mut parts: Vec<Vec<char>> = Vec::new();
    let mut i: usize = 0;
    while i < path.len()
        invariant
            i <= path@.len(),
            parts@.len() == i,
            forall|k: int| 0 <= k < i ==> parts@[k]@ == spec_dec_nat(path@[k] as nat),
        decreases path@.len() - i,
    {
        parts.push(dec_u64(path[i]));
        i = i + 1;
    }
    let r = join_char(&parts, '.');
    proof {
        let target = ints_of(path@).map_values(|n: int| spec_dec_int(n));
        assert forall|k: int| 0 <= k < parts@.len() implies views_of(parts@)[k] == target[k] by {
            assert(parts@[k]@ == spec_dec_nat(path@[k] as nat));
            assert(ints_of(path@)[k] == path@[k] as int);
        }
        assert(views_of(parts@) =~= target);
    }
    r
}

/// The pages of one sibling level, numbered: the page at 0-based
/// position `i` gets the path `path + [i + 1]`.
pub open spec fn spec_number_pages(ps: Seq<PageV>, path: Seq<int>) -> Seq<PageV>
    decreases ps,
{
    Seq::new(
        ps.len(),
        |i: int|
            if 0 <= i < ps.len() {
                spec_number_page(ps[i], path.push(i + 1))
            } else {
                empty_page_v()
            },
    )
}

/// A page numbered with its own dotted path, its children below it.
pub open spec fn spec_number_page(p: PageV, path: Seq<int>) -> PageV
    decreases p,
{
    PageV {
        number: spec_number_string(path),
        sub_pages: spec_number_pages(p.sub_pages, path),
        ..p
    }
}

/// Height of a page tree, for termination measures.
pub open spec fn pv_height(p: PageV) -> nat
    decreases p,
{
    1 + pvs_height(p.sub_pages)
}

/// Height of a forest: the greatest height among its trees.
pub open spec fn pvs_height(ps: Seq<PageV>) -> nat
    decreases ps,
{
    if ps.len() == 0 {
        0
    } else if pv_height(ps[0]) > pvs_height(ps.drop_first()) {
        pv_height(ps[0])
    } else {
        pvs_height(ps.drop_first())
    }
}

proof fn lemma_pvs_height_elem(ps: Seq<PageV>, i: int)
    requires
        0 <= i < ps.len(),
    ensures
        pv_height(ps[i]) <= pvs_height(ps),
    decreases ps,
{
    if i > 0 {
        lemma_pvs_height_elem(ps.drop_first(), i - 1);
        assert(ps.drop_first()[i - 1] == ps[i]);
    }
}

/// Number one sibling level: the page at 0-based position `i` is
/// numbered with the path `prefix + [i + 1]`, and its children below
/// that.
pub fn assign_numbers(pages: &Vec<Page>, prefix: &Vec<u64>) -> (r: Vec<Page>)
    ensures
        pages_view(r@) == spec_number_pages(pages_view(pages@), ints_of(prefix@)),
    decreases pvs_height(pages_view(pages@)), 1int,
{
    let mut out: Vec<Page> = Vec::new();
    let mut i: usize = 0;
    while i < pages.len()
        invariant
            i <= pages@.len(),
            out@.len() == i,
            forall|k: int|
                0 <= k < i ==> page_view(#[trigger] out@[k]) == spec_number_page(
                    page_view(pages@[k]),
                    ints_of(prefix@).push(k + 1),
                ),
        decreases pages@.len() - i,
    {
        let mut path = copy_nums(prefix);
        path.push((i as u64) + 1);
        proof {
            assert(pages_view(pages@)[i as int] == page_view(pages@[i as int]));
            lemma_pvs_height_elem(pages_view(pages@), i as int);
        }
        let p2 = number_page(&pages[i], &path);
        proof {
            assert(ints_of(prefix@.push(((i as u64) + 1) as u64)) =~= ints_of(prefix@).push(i + 1));
        }
        out.push(p2);
        i = i + 1;
    }
    proof {
        assert forall|k: int| 0 <= k < out@.len() implies pages_view(out@)[k] == spec_number_pages(
            pages_view(pages@),
            ints_of(prefix@),
        )[k] by {
            assert(pages_view(pages@)[k] == page_view(pages@[k]));
        }
        assert(pages_view(out@) =~= spec_number_pages(pages_view(pages@), ints_of(prefix@)));
    }
    out
}

/// Number one page with the given dotted path, and its children below
/// it.
pub fn number_page(p: &Page, path: &Vec<u64>) -> (r: Page)
    ensures
        page_view(r) == spec_number_page(page_view(*p), ints_of(path@)),
    decreases pv_height(page_view(*p)), 0int,
{
    let digits = join_nums(path);
    proof {
        assert(pages_view(p.sub_pages@) == page_view(*p).sub_pages);
    }
    let subs = assign_numbers(&p.sub_pages, path);
    let r = Page {
        name: p.name.clone(),
        path: p.path.clone(),
        sub_pages: subs,
        number: string_of(&digits),
        numbered: p.numbered,
    };
    proof {
        assert(pages_view(r.sub_pages@) == spec_number_pages(
            page_view(*p).sub_pages,
            ints_of(path@),
        ));
    }
    r
}

/// The streaming state of the outline pass: finished top-level
/// segments, a stack of in-progress page levels, the list nesting
/// depth, and the text and link-destination buffers.
pub ghost struct BuildState {
    pub segments: Seq<SegmentV>,
    pub levels: Seq<Seq<PageV>>,
    pub depth: int,
    pub text: Seq<char>,
    pub link: Seq<char>,
}

pub open spec fn init_state() -> BuildState {
    BuildState {
        segments: Seq::empty(),
        levels: seq![Seq::<PageV>::empty()],
        depth: 0,
        text: Seq::empty(),
        link: Seq::empty(),
    }
}

/// One streaming step of the outline pass.
pub open spec fn spec_step(st: BuildState, ev: MdEvent, base: Seq<char>) -> BuildState {
    match ev {
        MdEvent::LinkStart { dest } => BuildState { link: dest@, ..st },
        MdEvent::LinkEnd => {
            let page = PageV {
                name: st.text,
                path: spec_join_path(base, st.link),
                sub_pages: Seq::empty(),
                number: Seq::empty(),
                numbered: st.depth != 0,
            };
            if st.depth != 0 {
                if st.levels.len() > 0 {
                    BuildState {
                        levels: st.levels.update(
                            st.levels.len() - 1,
                            st.levels.last().push(page),
                        ),
                        text: Seq::empty(),
                        ..st
                    }
                } else {
                    BuildState { text: Seq::empty(), ..st }
                }
            } else {
                BuildState {
                    segments: st.segments.push(SegmentV::Page(page)),
                    text: Seq::empty(),
                    ..st
                }
            }
        },
        MdEvent::ListStart => BuildState {
            depth: st.depth + 1,
            levels: st.levels.push(Seq::empty()),
            ..st
        },

        MdEvent::ListEnd => {
            if st.levels.len() > 1 {
                let children = st.levels.last();
                let popped = st.levels.drop_last();
                let parent = popped.last();
                if parent.len() > 0 {
                    let joined = PageV {
                        sub_pages: parent.last().sub_pages + children,
                        ..parent.last()
                    };
                    BuildState {
                        depth: st.depth - 1,
                        levels: popped.update(
                            popped.len() - 1,
                            parent.update(parent.len() - 1, joined),
                        ),
                        ..st
                    }
                } else {
                    BuildState {
                        depth: st.depth - 1,
                        levels: popped,
                        segments: st.segments + children.map_values(
                            |p: PageV| SegmentV::Page(p),
                        ),
                        ..st
                    }
                }
            } else {
                BuildState { depth: st.depth - 1, ..st }
            }
        },
        MdEvent::ItemStart => BuildState { text: Seq::empty(), ..st },
        MdEvent::Text(t) => BuildState { text: st.text + t@, ..st },
        MdEvent::HeadingEnd => BuildState {
            segments: st.segments.push(SegmentV::Section(st.text)),
            text: Seq::empty(),
            ..st
        },
        _ => st,
    }
}

/// The state after the whole event stream.
pub open spec fn spec_scan(evs: Seq<MdEvent>, base: Seq<char>) -> BuildState
    decreases evs.len(),
{
    if evs.len() == 0 {
        init_state()
    } else {
        spec_step(spec_scan(evs.drop_last(), base), evs.last(), base)
    }
}

/// The numbering pass over the finished top-level segments: every
/// numbered page takes the next counter value as its bare number, and
/// its descendants their dotted paths below it; sections and
/// un-numbered pages pass through without moving the counter.
pub open spec fn spec_number_from(segs: Seq<SegmentV>, counter: int) -> Seq<SegmentV>
    decreases segs.len(),
{
    if segs.len() == 0 {
        Seq::empty()
    } else {
        match segs[0] {
            SegmentV::Page(p) => if p.numbered {
                seq![SegmentV::Page(spec_number_page(p, seq![counter]))] + spec_number_from(
                    segs.drop_first(),
                    counter + 1,
                )
            } else {
                seq![segs[0]] + spec_number_from(segs.drop_first(), counter)
            },
            SegmentV::Section(t) => seq![segs[0]] + spec_number_from(
                segs.drop_first(),
                counter,
            ),
        }
    }
}

/// The summary an outline event stream denotes.
pub open spec fn spec_summary_of(evs: Seq<MdEvent>, base: Seq<char>) -> Seq<SegmentV> {
    spec_number_from(spec_scan(evs, base).segments, 1)
}

pub open spec fn levels_view(ls: Seq<Vec<Page>>) -> Seq<Seq<PageV>> {
    ls.map_values(|l: Vec<Page>| pages_view(l@))
}

struct Builder {
    segments: Vec<Segment>,
    levels: Vec<Vec<Page>>,
    depth: i128,
    text: Vec<char>,
    link: Vec<char>,
}

spec fn abs(b: Builder) -> BuildState {
    BuildState {
        segments: segs_view(b.segments@),
        levels: levels_view(b.levels@),
        depth: b.depth as int,
        text: b.text@,
        link: b.link@,
    }
}

fn apply_event(b: &mut Builder, ev: &MdEvent, base: &Vec<char>)
    requires
        i128::MIN < old(b).depth < i128::MAX,
    ensures
        abs(*final(b)) == spec_step(abs(*old(b)), *ev, base@),
{
    let ghost st = abs(*old(b));
    match ev {
        MdEvent::LinkStart { dest } => {
            b.link = chars_of(dest.as_str());
            proof {
                assert(abs(*b) == spec_step(st, *ev, base@));
            }
        },
        MdEvent::LinkEnd => {
            let name = string_of(&b.text);
            let pathv = join_path_chars(base, &b.link);
            let numbered = b.depth != 0;
            let page = Page {
                name,
                path: string_of(&pathv),
                sub_pages: Vec::new(),
                number: String::new(),
                numbered,
            };
            let ghost pv = PageV {
                name: st.text,
                path: spec_join_path(base@, st.link),
                sub_pages: Seq::empty(),
                number: Seq::empty(),
                numbered: st.depth != 0,
            };
            proof {
                assert(pages_view(page.sub_pages@) =~= Seq::<PageV>::empty());
                assert(page_view(page) == pv);
            }
            if numbered {
                if b.levels.len() > 0 {
                    let mut lvl = b.levels.pop().unwrap();
                    let ghost lvl0 = lvl@;
                    lvl.push(page);
                    proof {
                        assert(pages_view(lvl@) =~= pages_view(lvl0).push(pv));
                        assert(pages_view(lvl0) == st.levels.last());
                    }
                    b.levels.push(lvl);
                    proof {
                        assert(levels_view(b.levels@) =~= st.levels.update(
                            st.levels.len() - 1,
                            st.levels.last().push(pv),
                        ));
                    }
                }
            } else {
                b.segments.push(Segment::Page(page));
                proof {
                    assert(segs_view(b.segments@) =~= st.segments.push(SegmentV::Page(pv)));
                }
            }
            b.text = Vec::new();
            proof {
                assert(b.text@ =~= Seq::<char>::empty());
                assert(abs(*b) == spec_step(st, *ev, base@));
            }
        },
        MdEvent::ListStart => {
            b.depth = b.depth + 1;
            b.levels.push(Vec::new());
            proof {
                assert(pages_view(Seq::<Page>::empty()) =~= Seq::<PageV>::empty());
                assert(levels_view(b.levels@) =~= st.levels.push(Seq::<PageV>::empty()));
                assert(abs(*b) == spec_step(st, *ev, base@));
            }
        },
        MdEvent::ListEnd => {
            b.depth = b.depth - 1;
            if b.levels.len() > 1 {
                let children = b.levels.pop().unwrap();
                let mut parent = b.levels.pop().unwrap();
                let ghost children_v = pages_view(children@);
                let ghost parent_v = pages_view(parent@);
                proof {
                    assert(children_v == st.levels.last());
                    assert(parent_v == st.levels.drop_last().last()) by {
                        assert(levels_view(b.levels@.push(parent).push(children)) == st.levels);
                        assert(st.levels.drop_last().last() == levels_view(
                            b.levels@.push(parent).push(children),
                        )[st.levels.len() - 2]);
                        assert(b.levels@.push(parent).push(children)[st.levels.len() - 2]
                            == parent);
                    }
                }
                if parent.len() > 0 {
                    let mut lastp = parent.pop().unwrap();
                    let ghost sub0 = lastp.sub_pages@;
                    let mut ch = children;
                    lastp.sub_pages.append(&mut ch);
                    proof {
                        assert(pages_view(lastp.sub_pages@) =~= pages_view(sub0) + children_v);
                        assert(page_view(lastp) == PageV {
                            sub_pages: parent_v.last().sub_pages + children_v,
                            ..parent_v.last()
                        });
                    }
                    let ghost parent_popped = parent@;
                    parent.push(lastp);
                    proof {
                        assert(pages_view(parent@) =~= parent_v.update(
                            parent_v.len() - 1,
                            PageV {
                                sub_pages: parent_v.last().sub_pages + children_v,
                                ..parent_v.last()
                            },
                        ));
                    }
                    b.levels.push(parent);
                    proof {
                        assert(levels_view(b.levels@) =~= st.levels.drop_last().update(
                            st.levels.drop_last().len() - 1,
                            parent_v.update(
                                parent_v.len() - 1,
                                PageV {
                                    sub_pages: parent_v.last().sub_pages + children_v,
                                    ..parent_v.last()
                                },
                            ),
                        ));
                    }
                } else {
                    b.levels.push(parent);
                    proof {
                        assert(levels_view(b.levels@) =~= st.levels.drop_last());
                        assert(parent_v.len() == 0);
                    }
                    let mut ch = children;
                    let ghost ch0 = ch@;
                    let ghost seg0 = segs_view(b.segments@);
                    let mut j: usize = 0;
                    let nc = ch.len();
                    proof {
                        assert(nc == ch0.len());
                        assert(ch@ =~= ch0.skip(0));
                        assert(seg0 + pages_view(ch0).take(0).map_values(
                            |p: PageV| SegmentV::Page(p),
                        ) =~= seg0);
                    }
                    while ch.len() > 0
                        invariant
                            j + ch@.len() == ch0.len(),
                            ch0.len() <= usize::MAX,
                            ch@ == ch0.skip(j as int),
                            segs_view(b.segments@) == seg0 + pages_view(ch0).take(
                                j as int,
                            ).map_values(|p: PageV| SegmentV::Page(p)),
                            b.depth == old(b).depth - 1,
                            b.text@ == st.text,
                            b.link@ == st.link,
                            levels_view(b.levels@) == st.levels.drop_last(),
                        decreases ch@.len(),
                    {
                        let c = ch.remove(0);
                        proof {
                            assert(c == ch0[j as int]);
                            assert(ch@ =~= ch0.skip(j + 1));
                            assert(page_view(c) == pages_view(ch0)[j as int]);
                        }
                        let ghost segs_before = segs_view(b.segments@);
                        b.segments.push(Segment::Page(c));
                        proof {
                            assert(segs_view(b.segments@) =~= segs_before.push(
                                SegmentV::Page(page_view(c)),
                            ));
                            assert(segs_before.push(SegmentV::Page(page_view(c))) =~= seg0
                                + pages_view(ch0).take(j + 1).map_values(
                                |p: PageV| SegmentV::Page(p),
                            ));
                        }
                        j = j + 1;
                    }
                    proof {
                        assert(pages_view(ch0).take(ch0.len() as int) =~= pages_view(ch0));
                        assert(segs_view(b.segments@) =~= st.segments + children_v.map_values(
                            |p: PageV| SegmentV::Page(p),
                        ));
                    }
                }
            }
            proof {
                assert(abs(*b) == spec_step(st, *ev, base@));
            }
        },
        MdEvent::ItemStart => {
            b.text = Vec::new();
            proof {
                assert(b.text@ =~= Seq::<char>::empty());
                assert(abs(*b) == spec_step(st, *ev, base@));
            }
        },
        MdEvent::Text(t) => {
            let tv = chars_of(t.as_str());
            extend_chars(&mut b.text, &tv);
            proof {
                assert(abs(*b) == spec_step(st, *ev, base@));
            }
        },
        MdEvent::HeadingEnd => {
            b.segments.push(Segment::Section(string_of(&b.text)));
            b.text = Vec::new();
            proof {
                assert(segs_view(b.segments@) =~= st.segments.push(SegmentV::Section(st.text)));
                assert(b.text@ =~= Seq::<char>::empty());
                assert(abs(*b) == spec_step(st, *ev, base@));
            }
        },
        _ => {
            proof {
                assert(abs(*b) == spec_step(st, *ev, base@));
            }
        },
    }
}

/// Build the summary from a classified outline event stream.
pub fn build_summary(events: &Vec<MdEvent>, base_path: &str) -> (r: Summary)
    ensures
        summary_view(r) == spec_summary_of(events@, base_path@),
{
    let base = chars_of(base_path);
    let mut b = Builder {
        segments: Vec::new(),
        levels: Vec::new(),
        depth: 0,
        text: Vec::new(),
        link: Vec::new(),
    };
    b.levels.push(Vec::new());
    proof {
        assert(segs_view(b.segments@) =~= Seq::<SegmentV>::empty());
        assert(pages_view(Seq::<Page>::empty()) =~= Seq::<PageV>::empty());
        assert(levels_view(b.levels@) =~= seq![Seq::<PageV>::empty()]);
        assert(abs(b) == init_state());
        assert(events@.take(0) =~= Seq::<MdEvent>::empty());
    }
    let mut i: usize = 0;
    while i < events.len()
        invariant
            i <= events@.len(),
            -(i as int) <= abs(b).depth <= i as int,
            abs(b) == spec_scan(events@.take(i as int), base@),
            base@ == base_path@,
        decreases events@.len() - i,
    {
        proof {
            assert(events@.take(i + 1).drop_last() =~= events@.take(i as int));
            assert(events@.take(i + 1).last() == events@[i as int]);
        }
        apply_event(&mut b, &events[i], &base);
        i = i + 1;
    }
    proof {
        assert(events@.take(events@.len() as int) =~= events@);
    }

    let mut out: Vec<Segment> = Vec::new();
    let mut rest = b.segments;
    let ghost segs0 = segs_view(rest@);
    let mut seen: u64 = 0;
    let mut i: usize = 0;
    let n = rest.len();
    proof {
        assert(n == segs0.len());
        assert(segs_view(rest@).skip(0) =~= segs0);
        assert(segs_view(out@) =~= Seq::<SegmentV>::empty());
        assert(Seq::<SegmentV>::empty() + spec_number_from(segs0, 1) =~= spec_number_from(
            segs0,
            1,
        ));
        assert(rest@.skip(0) =~= rest@);
    }
    let ghost rest0 = rest@;
    while rest.len() > 0
        invariant
            segs0.len() <= usize::MAX,
            i + rest@.len() == segs0.len(),
            segs0 == segs_view(rest0),
            rest@ == rest0.skip(i as int),
            seen <= i,
            spec_number_from(segs0, 1) == segs_view(out@) + spec_number_from(
                segs0.skip(i as int),
                seen as int + 1,
            ),
        decreases rest@.len(),
    {
        let s = rest.remove(0);
        let ghost rem = segs0.skip(i as int);
        let ghost out0 = segs_view(out@);
        proof {
            assert(s == rest0[i as int]);
            assert(rest@ =~= rest0.skip(i + 1));
            assert(seg_view(s) == segs0[i as int]);
            assert(rem[0] == segs0[i as int]);
            assert(rem.drop_first() =~= segs0.skip(i + 1));
        }
        match s {
            Segment::Page(p) => {
                if p.numbered {
                    let mut path: Vec<u64> = Vec::new();
                    path.push(seen + 1);
                    proof {
                        assert(ints_of(path@) =~= seq![seen as int + 1]);
                    }
                    let p2 = number_page(&p, &path);
                    let ghost spec_head = SegmentV::Page(
                        spec_number_page(page_view(p), seq![seen as int + 1]),
                    );
                    out.push(Segment::Page(p2));
                    proof {
                        assert(segs_view(out@) =~= out0.push(spec_head));
                        assert(out0.push(spec_head) =~= out0 + seq![spec_head]);
                    }
                    seen = seen + 1;
                } else {
                    out.push(Segment::Page(p));
                    proof {
                        assert(segs_view(out@) =~= out0 + seq![rem[0]]);
                    }
                }
            },
            Segment::Section(t) => {
                out.push(Segment::Section(t));
                proof {
                    assert(segs_view(out@) =~= out0 + seq![rem[0]]);
                }
            },
        }
        i = i + 1;
    }
    proof {
        assert(segs0.skip(i as int) =~= Seq::<SegmentV>::empty());
        assert(spec_number_from(segs0.skip(i as int), seen as int + 1)
            =~= Seq::<SegmentV>::empty());
        assert(segs_view(out@) =~= segs_view(out@) + Seq::<SegmentV>::empty());
    }
    Summary { segments: out }
}

/// Parse an outline document into its numbered summary. The base
/// directory is joined onto every link destination.
pub fn parse_summary(contents: &str, base_path: &str) -> (r: Summary)
    ensures
        summary_view(r) == spec_summary_of(outline_events_of(contents@), base_path@),
{
    let evs = outline_events(contents);
    build_summary(&evs, base_path)
}

/// How many of the segments are numbered pages.
pub open spec fn count_numbered(segs: Seq<SegmentV>) -> int
    decreases segs.len(),
{
    if segs.len() == 0 {
        0
    } else {
        (match segs[0] {
            SegmentV::Page(p) => if p.numbered {
                1int
            } else {
                0int
            },
            SegmentV::Section(t) => 0int,
        }) + count_numbered(segs.drop_first())
    }
}

pub proof fn lemma_number_from_len(segs: Seq<SegmentV>, counter: int)
    ensures
        spec_number_from(segs, counter).len() == segs.len(),
    decreases segs.len(),
{
    if segs.len() > 0 {
        lemma_number_from_len(segs.drop_first(), counter);
        lemma_number_from_len(segs.drop_first(), counter + 1);
    }
}

/// Numbering is positional: a numbered top-level page's number is
/// decided by the count of numbered pages before it alone, so
/// reordering two numbered pages swaps the numbers they receive.
pub proof fn lemma_number_from_position(segs: Seq<SegmentV>, counter: int, i: int)
    requires
        0 <= i < segs.len(),
        segs[i] is Page,
        segs[i]->Page_0.numbered,
    ensures
        spec_number_from(segs, counter).len() == segs.len(),
        spec_number_from(segs, counter)[i] == SegmentV::Page(
            spec_number_page(segs[i]->Page_0, seq![counter + count_numbered(segs.take(i))]),
        ),
    decreases segs.len(),
{
    lemma_number_from_len(segs, counter);
    if i == 0 {
        assert(segs.take(0) =~= Seq::<SegmentV>::empty());
    } else {
        let t = segs.drop_first();
        let head_count: int = match segs[0] {
            SegmentV::Page(p) => if p.numbered {
                1int
            } else {
                0int
            },
            SegmentV::Section(_) => 0int,
        };
        assert(t[i - 1] == segs[i]);
        lemma_number_from_position(t, counter + head_count, i - 1);
        lemma_number_from_len(t, counter + head_count);
        assert(spec_number_from(segs, counter)[i] == spec_number_from(t, counter + head_count)[i
            - 1]);
        assert(count_numbered(segs.take(i)) == head_count + count_numbered(t.take(i - 1))) by {
            lemma_count_numbered_split(segs, i);
        }
    }
}

proof fn lemma_count_numbered_split(segs: Seq<SegmentV>, i: int)
    requires
        1 <= i <= segs.len(),
    ensures
        count_numbered(segs.take(i)) == (match segs[0] {
            SegmentV::Page(p) => if p.numbered {
                1int
            } else {
                0int
            },
            SegmentV::Section(t) => 0int,
        }) + count_numbered(segs.drop_first().take(i - 1)),
{
    assert(segs.take(i)[0] == segs[0]);
    assert(segs.take(i).drop_first() =~= segs.drop_first().take(i - 1));
}

proof fn lemma_count_numbered_same(xs: Seq<SegmentV>, ys: Seq<SegmentV>)
    requires
        ys.len() == xs.len(),
        forall|k: int|
            0 <= k < xs.len() ==> ((xs[k] is Page && xs[k]->Page_0.numbered) <==> (
            (#[trigger] ys[k]) is Page && ys[k]->Page_0.numbered)),
    ensures
        count_numbered(xs) == count_numbered(ys),
    decreases xs.len(),
{
    if xs.len() > 0 {
        assert forall|k: int|
            0 <= k < xs.drop_first().len() implies ((xs.drop_first()[k] is Page
            && xs.drop_first()[k]->Page_0.numbered) <==> ((#[trigger] ys.drop_first()[k]) is Page
            && ys.drop_first()[k]->Page_0.numbered)) by {
            assert(xs.drop_first()[k] == xs[k + 1]);
            assert(ys.drop_first()[k] == ys[k + 1]);
        }
        lemma_count_numbered_same(xs.drop_first(), ys.drop_first());
    }
}

/// Exchanging two numbered top-level pages exchanges exactly the
/// numbers they receive: each position's number is the position's
/// alone, so after a swap the page that moved up carries the earlier
/// number and the page that moved down the later one.
pub proof fn lemma_number_from_swap(segs: Seq<SegmentV>, counter: int, i: int, j: int)
    requires
        0 <= i < j < segs.len(),
        segs[i] is Page,
        segs[i]->Page_0.numbered,
        segs[j] is Page,
        segs[j]->Page_0.numbered,
    ensures
        ({
            let swapped = segs.update(i, segs[j]).update(j, segs[i]);
            &&& spec_number_from(segs, counter)[i] == SegmentV::Page(
                spec_number_page(segs[i]->Page_0, seq![counter + count_numbered(segs.take(i))]),
            )
            &&& spec_number_from(segs, counter)[j] == SegmentV::Page(
                spec_number_page(segs[j]->Page_0, seq![counter + count_numbered(segs.take(j))]),
            )
            &&& spec_number_from(swapped, counter)[i] == SegmentV::Page(
                spec_number_page(segs[j]->Page_0, seq![counter + count_numbered(segs.take(i))]),
            )
            &&& spec_number_from(swapped, counter)[j] == SegmentV::Page(
                spec_number_page(segs[i]->Page_0, seq![counter + count_numbered(segs.take(j))]),
            )
        }),
{
    let swapped = segs.update(i, segs[j]).update(j, segs[i]);
    assert(swapped[i] == segs[j]);
    assert(swapped[j] == segs[i]);
    lemma_number_from_position(segs, counter, i);
    lemma_number_from_position(segs, counter, j);
    lemma_number_from_position(swapped, counter, i);
    lemma_number_from_position(swapped, counter, j);
    assert(swapped.take(i) =~= segs.take(i));
    assert forall|k: int|
        0 <= k < segs.take(j).len() implies ((segs.take(j)[k] is Page
        && segs.take(j)[k]->Page_0.numbered) <==> ((#[trigger] swapped.take(j)[k]) is Page
        && swapped.take(j)[k]->Page_0.numbered)) by {
        if k == i {
            assert(swapped.take(j)[k] == segs[j]);
        } else {
            assert(swapped.take(j)[k] == segs[k]);
        }
    }
    lemma_count_numbered_same(segs.take(j), swapped.take(j));
}

/// Rebuilding a summary from the same outline text and base directory
/// yields the same segments: the summary is a function of the text
/// alone.
pub proof fn lemma_summary_deterministic(
    s1: Summary,
    s2: Summary,
    contents: Seq<char>,
    base: Seq<char>,
)
    requires
        summary_view(s1) == spec_summary_of(outline_events_of(contents), base),
        summary_view(s2) == spec_summary_of(outline_events_of(contents), base),
    ensures
        summary_view(s1) == summary_view(s2),
{
}

fn copy_nums(v: &Vec<u64>) -> (r: Vec<u64>)
    ensures
        r@ == v@,
{
    let mut r: Vec<u64> = Vec::new();
    let mut k: usize = 0;
    while k < v.len()
        invariant
            k <= v@.len(),
            r@ == v@.take(k as int),
        decreases v@.len() - k,
    {
        r.push(v[k]);
        k = k + 1;
        proof {
            assert(r@ =~= v@.take(k as int));
        }
    }
    proof {
        assert(r@ =~= v@);
    }
    r
}

} // verus!
