//! Character-sequence utilities shared by the comment parser, the
//! outline builder, the renderer and the doctest normalizer.
//!
//! Executable code works on `Vec<char>`; every function is specified
//! against a spec function over `Seq<char>`.

use vstd::prelude::*;

verus! {

/// Whitespace as trimming understands it: the ASCII space and control
/// characters that commonly separate tokens in documentation text.
pub open spec fn is_space(c: char) -> bool {
    c == ' ' || c == '\t' || c == '\n' || c == '\r' || c == '\u{B}' || c == '\u{C}'
}

pub fn exec_is_space(c: char) -> (r: bool)
    ensures
        r == is_space(c),
{
    c == ' ' || c == '\t' || c == '\n' || c == '\r' || c == '\u{B}' || c == '\u{C}'
}

/// The character sequences held by a sequence of character vectors.
pub open spec fn views_of(ls: Seq<Vec<char>>) -> Seq<Seq<char>> {
    ls.map_values(|l: Vec<char>| l@)
}

/// The character sequences held by a sequence of strings.
pub open spec fn str_views(ss: Seq<String>) -> Seq<Seq<char>> {
    ss.map_values(|s: String| s@)
}

/// The characters of a string, in order.
pub fn chars_of(s: &str) -> (r: Vec<char>)
    ensures
        r@ == s@,
{
    let n = s.unicode_len();
    let mut r: Vec<char> = Vec::new();
    let mut i: usize = 0;
    while i < n
        invariant
            n == s@.len(),
            i <= n,
            r@ == s@.take(i as int),
        decreases n - i,
    {
        r.push(s.get_char(i));
        i = i + 1;
        proof {
            assert(r@ =~= s@.take(i as int));
        }
    }
    proof {
        assert(r@ =~= s@);
    }
    r
}

/// Relies on `String: FromIterator<char>`: the collected string holds
/// exactly the characters of the iterator, in order.
#[verifier::external_body]
pub fn string_of(v: &Vec<char>) -> (r: String)
    ensures
        r@ == v@,
{
    v.iter().collect()
}

pub open spec fn spec_trim_start(s: Seq<char>) -> Seq<char>
    decreases s.len(),
{
    if s.len() > 0 && is_space(s[0]) {
        spec_trim_start(s.drop_first())
    } else {
        s
    }
}

pub open spec fn spec_trim_end(s: Seq<char>) -> Seq<char>
    decreases s.len(),
{
    if s.len() > 0 && is_space(s[s.len() - 1]) {
        spec_trim_end(s.drop_last())
    } else {
        s
    }
}

pub open spec fn spec_trim(s: Seq<char>) -> Seq<char> {
    spec_trim_end(spec_trim_start(s))
}

proof fn lemma_trim_start_skip(s: Seq<char>, i: int)
    requires
        0 <= i <= s.len(),
        forall|j: int| 0 <= j < i ==> is_space(s[j]),
    ensures
        spec_trim_start(s) == spec_trim_start(s.skip(i)),
    decreases i,
{
    if i > 0 {
        assert(is_space(s[0]));
        assert(s.drop_first() =~= s.skip(1));
        lemma_trim_start_skip(s.skip(1), i - 1);
        assert(s.skip(1).skip(i - 1) =~= s.skip(i));
    } else {
        assert(s.skip(0) =~= s);
    }
}

proof fn lemma_trim_start_noop(s: Seq<char>)
    requires
        s.len() == 0 || !is_space(s[0]),
    ensures
        spec_trim_start(s) == s,
{
}

pub fn trim_start(v: &Vec<char>) -> (r: Vec<char>)
    ensures
        r@ == spec_trim_start(v@),
{
    let mut i: usize = 0;
    while i < v.len() && exec_is_space(v[i])
        invariant
            i <= v@.len(),
            forall|j: int| 0 <= j < i ==> is_space(v@[j]),
        decreases v@.len() - i,
    {
        i = i + 1;
    }
    proof {
        lemma_trim_start_skip(v@, i as int);
        lemma_trim_start_noop(v@.skip(i as int));
    }
    let mut r: Vec<char> = Vec::new();
    let mut k: usize = i;
    while k < v.len()
        invariant
            i <= k <= v@.len(),
            r@ == v@.subrange(i as int, k as int),
        decreases v@.len() - k,
    {
        r.push(v[k]);
        k = k + 1;
        proof {
            assert(r@ =~= v@.subrange(i as int, k as int));
        }
    }
    proof {
        assert(v@.subrange(i as int, v@.len() as int) =~= v@.skip(i as int));
    }
    r
}

proof fn lemma_trim_end_take(s: Seq<char>, i: int)
    requires
        0 <= i <= s.len(),
        forall|j: int| i <= j < s.len() ==> is_space(s[j]),
    ensures
        spec_trim_end(s) == spec_trim_end(s.take(i)),
    decreases s.len() - i,
{
    if i < s.len() {
        assert(is_space(s[s.len() - 1]));
        assert(s.drop_last() =~= s.take(s.len() - 1));
        lemma_trim_end_take(s.take(s.len() - 1), i);
        assert(s.take(s.len() - 1).take(i) =~= s.take(i));
    } else {
        assert(s.take(i) =~= s);
    }
}

proof fn lemma_trim_end_noop(s: Seq<char>)
    requires
        s.len() == 0 || !is_space(s[s.len() - 1]),
    ensures
        spec_trim_end(s) == s,
{
}

pub fn trim_end(v: &Vec<char>) -> (r: Vec<char>)
    ensures
        r@ == spec_trim_end(v@),
{
    let mut i: usize = v.len();
    while i > 0 && exec_is_space(v[i - 1])
        invariant
            i <= v@.len(),
            forall|j: int| i <= j < v@.len() ==> is_space(v@[j]),
        decreases i,
    {
        i = i - 1;
    }
    proof {
        lemma_trim_end_take(v@, i as int);
        lemma_trim_end_noop(v@.take(i as int));
    }
    let mut r: Vec<char> = Vec::new();
    let mut k: usize = 0;
    while k < i
        invariant
            k <= i <= v@.len(),
            r@ == v@.take(k as int),
        decreases i - k,
    {
        r.push(v[k]);
        k = k + 1;
        proof {
            assert(r@ =~= v@.take(k as int));
        }
    }
    r
}

pub fn trim(v: &Vec<char>) -> (r: Vec<char>)
    ensures
        r@ == spec_trim(v@),
{
    trim_end(&trim_start(v))
}

/// `p` is a prefix of `s`.
pub open spec fn spec_starts_with(s: Seq<char>, p: Seq<char>) -> bool {
    s.len() >= p.len() && s.take(p.len() as int) == p
}

/// `p` is a suffix of `s`.
pub open spec fn spec_ends_with(s: Seq<char>, p: Seq<char>) -> bool {
    s.len() >= p.len() && s.skip(s.len() - p.len()) == p
}

pub fn starts_with(v: &Vec<char>, p: &Vec<char>) -> (r: bool)
    ensures
        r == spec_starts_with(v@, p@),
{
    if v.len() < p.len() {
        assert(!spec_starts_with(v@, p@));
        return false;
    }
    let mut i: usize = 0;
    while i < p.len()
        invariant
            i <= p@.len() <= v@.len(),
            forall|j: int| 0 <= j < i ==> v@[j] == p@[j],
        decreases p@.len() - i,
    {
        if v[i] != p[i] {
            assert(v@.take(p@.len() as int)[i as int] != p@[i as int]);
            return false;
        }
        i = i + 1;
    }
    proof {
        assert(v@.take(p@.len() as int) =~= p@);
    }
    true
}

pub fn ends_with(v: &Vec<char>, p: &Vec<char>) -> (r: bool)
    ensures
        r == spec_ends_with(v@, p@),
{
    if v.len() < p.len() {
        assert(!spec_ends_with(v@, p@));
        return false;
    }
    let off: usize = v.len() - p.len();
    let mut i: usize = 0;
    while i < p.len()
        invariant
            i <= p@.len() <= v@.len() <= usize::MAX,
            off == v@.len() - p@.len(),
            forall|j: int| 0 <= j < i ==> v@[off + j] == p@[j],
        decreases p@.len() - i,
    {
        if v[off + i] != p[i] {
            assert(v@.skip(off as int)[i as int] != p@[i as int]);
            return false;
        }
        i = i + 1;
    }
    proof {
        assert(v@.skip(off as int) =~= p@);
    }
    true
}

pub fn subrange_of(v: &Vec<char>, from: usize, to: usize) -> (r: Vec<char>)
    requires
        from <= to <= v@.len(),
    ensures
        r@ == v@.subrange(from as int, to as int),
{
    let mut r: Vec<char> = Vec::new();
    let mut k: usize = from;
    while k < to
        invariant
            from <= k <= to <= v@.len(),
            r@ == v@.subrange(from as int, k as int),
        decreases to - k,
    {
        r.push(v[k]);
        k = k + 1;
        proof {
            assert(r@ =~= v@.subrange(from as int, k as int));
        }
    }
    r
}

pub fn concat_chars(a: &Vec<char>, b: &Vec<char>) -> (r: Vec<char>)
    ensures
        r@ == a@ + b@,
{
    let mut r: Vec<char> = Vec::new();
    let mut k: usize = 0;
    while k < a.len()
        invariant
            k <= a@.len(),
            r@ == a@.take(k as int),
        decreases a@.len() - k,
    {
        r.push(a[k]);
        k = k + 1;
        proof {
            assert(r@ =~= a@.take(k as int));
        }
    }
    proof {
        assert(r@ =~= a@);
    }
    let mut k: usize = 0;
    while k < b.len()
        invariant
            k <= b@.len(),
            r@ == a@ + b@.take(k as int),
        decreases b@.len() - k,
    {
        r.push(b[k]);
        k = k + 1;
        proof {
            assert(r@ =~= a@ + b@.take(k as int));
        }
    }
    proof {
        assert(r@ =~= a@ + b@);
    }
    r
}

/// A copy of the characters.
pub fn copy_chars(v: &Vec<char>) -> (r: Vec<char>)
    ensures
        r@ == v@,
{
    let r = subrange_of(v, 0, v.len());
    proof {
        assert(v@.subrange(0, v@.len() as int) =~= v@);
    }
    r
}

/// The pieces from position `from` on.
pub fn tail_lines(ls: &Vec<Vec<char>>, from: usize) -> (r: Vec<Vec<char>>)
    requires
        from <= ls@.len(),
    ensures
        views_of(r@) == views_of(ls@).skip(from as int),
{
    let mut r: Vec<Vec<char>> = Vec::new();
    let mut i: usize = from;
    while i < ls.len()
        invariant
            from <= i <= ls@.len(),
            r@.len() == i - from,
            forall|k: int| 0 <= k < r@.len() ==> r@[k]@ == ls@[from + k]@,
        decreases ls@.len() - i,
    {
        r.push(copy_chars(&ls[i]));
        i = i + 1;
    }
    proof {
        assert forall|k: int| 0 <= k < r@.len() implies views_of(r@)[k] == views_of(ls@).skip(
            from as int,
        )[k] by {
            assert(r@[k]@ == ls@[from + k]@);
        }
        assert(views_of(r@) =~= views_of(ls@).skip(from as int));
    }
    r
}

/// Equality of two character vectors.
pub fn eq_chars(a: &Vec<char>, b: &Vec<char>) -> (r: bool)
    ensures
        r == (a@ == b@),
{
    if a.len() != b.len() {
        return false;
    }
    let mut i: usize = 0;
    while i < a.len()
        invariant
            i <= a@.len() == b@.len(),
            forall|j: int| 0 <= j < i ==> a@[j] == b@[j],
        decreases a@.len() - i,
    {
        if a[i] != b[i] {
            return false;
        }
        i = i + 1;
    }
    proof {
        assert(a@ =~= b@);
    }
    true
}

/// `s` with the prefix `p` removed once, if it is there.
pub open spec fn spec_strip_prefix(s: Seq<char>, p: Seq<char>) -> Seq<char> {
    if spec_starts_with(s, p) {
        s.skip(p.len() as int)
    } else {
        s
    }
}

/// `s` with the suffix `p` removed once, if it is there.
pub open spec fn spec_strip_suffix(s: Seq<char>, p: Seq<char>) -> Seq<char> {
    if spec_ends_with(s, p) {
        s.take(s.len() - p.len())
    } else {
        s
    }
}

pub fn strip_prefix_if(v: &Vec<char>, p: &Vec<char>) -> (r: Vec<char>)
    ensures
        r@ == spec_strip_prefix(v@, p@),
{
    if starts_with(v, p) {
        subrange_of(v, p.len(), v.len())
    } else {
        subrange_of(v, 0, v.len())
    }
}

pub fn strip_suffix_if(v: &Vec<char>, p: &Vec<char>) -> (r: Vec<char>)
    ensures
        r@ == spec_strip_suffix(v@, p@),
{
    if ends_with(v, p) {
        subrange_of(v, 0, v.len() - p.len())
    } else {
        subrange_of(v, 0, v.len())
    }
}

/// `s` with every leading occurrence of the character `c` removed.
pub open spec fn spec_strip_leading(s: Seq<char>, c: char) -> Seq<char>
    decreases s.len(),
{
    if s.len() > 0 && s[0] == c {
        spec_strip_leading(s.drop_first(), c)
    } else {
        s
    }
}

proof fn lemma_strip_leading_skip(s: Seq<char>, c: char, i: int)
    requires
        0 <= i <= s.len(),
        forall|j: int| 0 <= j < i ==> s[j] == c,
    ensures
        spec_strip_leading(s, c) == spec_strip_leading(s.skip(i), c),
    decreases i,
{
    if i > 0 {
        assert(s.drop_first() =~= s.skip(1));
        lemma_strip_leading_skip(s.skip(1), c, i - 1);
        assert(s.skip(1).skip(i - 1) =~= s.skip(i));
    } else {
        assert(s.skip(0) =~= s);
    }
}

pub fn strip_leading(v: &Vec<char>, c: char) -> (r: Vec<char>)
    ensures
        r@ == spec_strip_leading(v@, c),
{
    let mut i: usize = 0;
    while i < v.len() && v[i] == c
        invariant
            i <= v@.len(),
            forall|j: int| 0 <= j < i ==> v@[j] == c,
        decreases v@.len() - i,
    {
        i = i + 1;
    }
    proof {
        lemma_strip_leading_skip(v@, c, i as int);
    }
    subrange_of(v, i, v.len())
}

/// `s` with every trailing occurrence of the suffix `p` removed.
pub open spec fn spec_strip_all_suffix(s: Seq<char>, p: Seq<char>) -> Seq<char>
    decreases s.len(),
{
    if p.len() > 0 && spec_ends_with(s, p) {
        spec_strip_all_suffix(s.take(s.len() - p.len()), p)
    } else {
        s
    }
}

pub fn strip_all_suffix(v: &Vec<char>, p: &Vec<char>) -> (r: Vec<char>)
    requires
        p@.len() > 0,
    ensures
        r@ == spec_strip_all_suffix(v@, p@),
    decreases v@.len(),
{
    if ends_with(v, p) {
        let shorter = subrange_of(v, 0, v.len() - p.len());
        strip_all_suffix(&shorter, p)
    } else {
        subrange_of(v, 0, v.len())
    }
}

/// The first position of `c` in `s`, if any.
pub open spec fn spec_find(s: Seq<char>, c: char) -> Option<int>
    decreases s.len(),
{
    if s.len() == 0 {
        None
    } else if s[0] == c {
        Some(0int)
    } else {
        match spec_find(s.drop_first(), c) {
            None => None,
            Some(i) => Some(i + 1),
        }
    }
}

pub proof fn lemma_find_char(s: Seq<char>, c: char)
    ensures
        match spec_find(s, c) {
            Some(i) => 0 <= i < s.len() && s[i] == c && forall|j: int| 0 <= j < i ==> s[j] != c,
            None => forall|j: int| 0 <= j < s.len() ==> s[j] != c,
        },
    decreases s.len(),
{
    if s.len() > 0 && s[0] != c {
        let t = s.drop_first();
        lemma_find_char(t, c);
        match spec_find(t, c) {
            Some(i) => {
                assert(s[i + 1] == t[i]);
                assert forall|j: int| 0 <= j < i + 1 implies s[j] != c by {
                    if j > 0 {
                        assert(t[j - 1] == s[j]);
                    }
                }
            },
            None => {
                assert forall|j: int| 0 <= j < s.len() implies s[j] != c by {
                    if j > 0 {
                        assert(t[j - 1] == s[j]);
                    }
                }
            },
        }
    }
}

/// First position of `c` in `v` at or after `start`.
pub fn find_from(v: &Vec<char>, start: usize, c: char) -> (r: Option<usize>)
    requires
        start <= v@.len(),
    ensures
        match r {
            Some(i) => start <= i < v@.len() && v@[i as int] == c && forall|j: int|
                start <= j < i ==> v@[j] != c,
            None => forall|j: int| start <= j < v@.len() ==> v@[j] != c,
        },
{
    let mut i: usize = start;
    while i < v.len()
        invariant
            start <= i <= v@.len(),
            forall|j: int| start <= j < i ==> v@[j] != c,
        decreases v@.len() - i,
    {
        if v[i] == c {
            return Some(i);
        }
        i = i + 1;
    }
    None
}

/// A final carriage return removed, as line splitting does.
pub open spec fn strip_cr(s: Seq<char>) -> Seq<char> {
    if s.len() > 0 && s[s.len() - 1] == '\r' {
        s.drop_last()
    } else {
        s
    }
}

/// The lines of `s`: split at every newline, a carriage return before a
/// newline dropped, and a final line ending yielding no extra empty line.
pub open spec fn spec_lines(s: Seq<char>) -> Seq<Seq<char>>
    decreases s.len(),
{
    if s.len() == 0 {
        Seq::empty()
    } else {
        match spec_find(s, '\n') {
            None => seq![s],
            Some(i) => if 0 <= i < s.len() {
                seq![strip_cr(s.take(i))] + spec_lines(s.skip(i + 1))
            } else {
                seq![s]
            },
        }
    }
}

pub fn split_lines(v: &Vec<char>) -> (r: Vec<Vec<char>>)
    ensures
        views_of(r@) == spec_lines(v@),
{
    let mut r: Vec<Vec<char>> = Vec::new();
    let mut pos: usize = 0;
    proof {
        assert(v@.skip(0) =~= v@);
        assert(views_of(r@) =~= Seq::<Seq<char>>::empty());
    }
    while pos < v.len()
        invariant
            pos <= v@.len(),
            spec_lines(v@) == views_of(r@) + spec_lines(v@.skip(pos as int)),
        decreases v@.len() - pos,
    {
        let ghost rem = v@.skip(pos as int);
        let ghost r_old = views_of(r@);
        match find_from(v, pos, '\n') {
            None => {
                proof {
                    lemma_find_char(rem, '\n');
                    if rem.len() > 0 && rem[0] == '\n' {
                        assert(v@[pos as int] == '\n');
                    }
                    assert(spec_find(rem, '\n') is None) by {
                        if spec_find(rem, '\n') is Some {
                            let i = spec_find(rem, '\n')->Some_0;
                            assert(v@[pos + i] == '\n');
                        }
                    }
                    assert(spec_lines(rem) =~= seq![rem]);
                }
                let line = subrange_of(v, pos, v.len());
                proof {
                    assert(line@ =~= rem);
                }
                r.push(line);
                proof {
                    assert(views_of(r@) =~= r_old + seq![rem]);
                    assert(v@.skip(v@.len() as int) =~= Seq::<char>::empty());
                }
                pos = v.len();
            },
            Some(i) => {
                proof {
                    lemma_find_char(rem, '\n');
                    assert(rem[i - pos] == '\n');
                    if spec_find(rem, '\n') is None {
                        assert(rem[i - pos] != '\n');
                        assert(false);
                    }
                    let fi = spec_find(rem, '\n')->Some_0;
                    assert(rem[fi] == '\n');
                    assert(v@[pos + fi] == '\n');
                    assert(fi == i - pos);
                    assert(spec_lines(rem) == seq![strip_cr(rem.take(fi))] + spec_lines(
                        rem.skip(fi + 1),
                    ));
                    assert(rem.take(i - pos) =~= v@.subrange(pos as int, i as int));
                    assert(rem.skip(i - pos + 1) =~= v@.skip(i + 1));
                }
                let raw = subrange_of(v, pos, i);
                let line = if raw.len() > 0 && raw[raw.len() - 1] == '\r' {
                    subrange_of(&raw, 0, raw.len() - 1)
                } else {
                    subrange_of(&raw, 0, raw.len())
                };
                proof {
                    assert(line@ =~= strip_cr(raw@));
                }
                r.push(line);
                proof {
                    assert(views_of(r@) =~= r_old + seq![strip_cr(rem.take(i - pos))]);
                }
                pos = i + 1;
            },
        }
    }
    proof {
        assert(spec_lines(v@.skip(pos as int)) =~= Seq::<Seq<char>>::empty());
        assert(views_of(r@) =~= views_of(r@) + Seq::<Seq<char>>::empty());
    }
    r
}

/// The pieces of `s` split at every occurrence of `c`; an empty `s`
/// yields one empty piece.
pub open spec fn spec_split(s: Seq<char>, c: char) -> Seq<Seq<char>>
    decreases s.len(),
{
    match spec_find(s, c) {
        None => seq![s],
        Some(i) => if 0 <= i < s.len() {
            seq![s.take(i)] + spec_split(s.skip(i + 1), c)
        } else {
            seq![s]
        },
    }
}

pub fn split_at_char(v: &Vec<char>, c: char) -> (r: Vec<Vec<char>>)
    ensures
        views_of(r@) == spec_split(v@, c),
{
    let mut r: Vec<Vec<char>> = Vec::new();
    let mut pos: usize = 0;
    let n = v.len();
    proof {
        assert(v@.skip(0) =~= v@);
        assert(views_of(r@) =~= Seq::<Seq<char>>::empty());
    }
    loop
        invariant
            pos <= n == v@.len(),
            spec_split(v@, c) == views_of(r@) + spec_split(v@.skip(pos as int), c),
        decreases v@.len() - pos + 1,
    {
        let ghost rem = v@.skip(pos as int);
        let ghost r_old = views_of(r@);
        match find_from(v, pos, c) {
            None => {
                proof {
                    lemma_find_char(rem, c);
                    if spec_find(rem, c) is Some {
                        let fi = spec_find(rem, c)->Some_0;
                        assert(rem[fi] == c);
                        assert(v@[pos + fi] == c);
                    }
                    assert(spec_split(rem, c) == seq![rem]);
                }
                let piece = subrange_of(v, pos, v.len());
                proof {
                    assert(piece@ =~= rem);
                }
                r.push(piece);
                proof {
                    assert(views_of(r@) =~= r_old + seq![rem]);
                }
                return r;
            },
            Some(i) => {
                proof {
                    lemma_find_char(rem, c);
                    assert(rem[i - pos] == c);
                    if spec_find(rem, c) is None {
                        assert(false);
                    }
                    let fi = spec_find(rem, c)->Some_0;
                    assert(rem[fi] == c);
                    assert(v@[pos + fi] == c);
                    assert(fi == i - pos);
                    assert(spec_split(rem, c) == seq![rem.take(fi)] + spec_split(
                        rem.skip(fi + 1),
                        c,
                    ));
                    assert(rem.take(i - pos) =~= v@.subrange(pos as int, i as int));
                    assert(rem.skip(i - pos + 1) =~= v@.skip(i + 1));
                }
                let piece = subrange_of(v, pos, i);
                r.push(piece);
                proof {
                    assert(views_of(r@) =~= r_old + seq![rem.take(i - pos)]);
                }
                pos = i + 1;
            },
        }
    }
}

/// What follows the first piece when joining: a separator before each
/// further piece.
pub open spec fn spec_join_rest(ls: Seq<Seq<char>>, sep: char) -> Seq<char>
    decreases ls.len(),
{
    if ls.len() == 0 {
        Seq::empty()
    } else {
        seq![sep] + ls[0] + spec_join_rest(ls.drop_first(), sep)
    }
}

/// The pieces joined with the character `sep` between them.
pub open spec fn spec_join(ls: Seq<Seq<char>>, sep: char) -> Seq<char> {
    if ls.len() == 0 {
        Seq::empty()
    } else {
        ls[0] + spec_join_rest(ls.drop_first(), sep)
    }
}

/// Every piece followed by a newline.
pub open spec fn spec_cat_lines(ls: Seq<Seq<char>>) -> Seq<char>
    decreases ls.len(),
{
    if ls.len() == 0 {
        Seq::empty()
    } else {
        ls[0] + seq!['\n'] + spec_cat_lines(ls.drop_first())
    }
}

/// Append the characters of `src` to `dst`.
pub fn extend_chars(dst: &mut Vec<char>, src: &Vec<char>) -> (u: ())
    ensures
        final(dst)@ == old(dst)@ + src@,
{
    let ghost d0 = dst@;
    let mut k: usize = 0;
    while k < src.len()
        invariant
            k <= src@.len(),
            dst@ == d0 + src@.take(k as int),
        decreases src@.len() - k,
    {
        dst.push(src[k]);
        k = k + 1;
        proof {
            assert(dst@ =~= d0 + src@.take(k as int));
        }
    }
    proof {
        assert(dst@ =~= d0 + src@);
    }
}

pub fn join_char(ls: &Vec<Vec<char>>, sep: char) -> (r: Vec<char>)
    ensures
        r@ == spec_join(views_of(ls@), sep),
{
    let mut r: Vec<char> = Vec::new();
    if ls.len() == 0 {
        proof {
            assert(views_of(ls@) =~= Seq::<Seq<char>>::empty());
        }
        return r;
    }
    extend_chars(&mut r, &ls[0]);
    proof {
        assert(Seq::<char>::empty() + views_of(ls@)[0] =~= views_of(ls@)[0]);
        assert(r@ == views_of(ls@)[0]);
        assert(views_of(ls@).skip(1) =~= views_of(ls@).drop_first());
    }
    let mut i: usize = 1;
    while i < ls.len()
        invariant
            1 <= i <= ls@.len(),
            views_of(ls@).len() == ls@.len(),
            spec_join(views_of(ls@), sep) == r@ + spec_join_rest(
                views_of(ls@).skip(i as int),
                sep,
            ),
        decreases ls@.len() - i,
    {
        let ghost rem = views_of(ls@).skip(i as int);
        let ghost r_old = r@;
        r.push(sep);
        extend_chars(&mut r, &ls[i]);
        proof {
            assert(rem[0] == views_of(ls@)[i as int]);
            assert(rem.drop_first() =~= views_of(ls@).skip(i + 1));
            assert(r@ =~= r_old + (seq![sep] + rem[0]));
        }
        i = i + 1;
    }
    proof {
        assert(spec_join_rest(views_of(ls@).skip(i as int), sep) =~= Seq::<char>::empty());
        assert(r@ =~= r@ + Seq::<char>::empty());
        assert(views_of(ls@).skip(1) =~= views_of(ls@).drop_first());
    }
    r
}

pub fn cat_lines(ls: &Vec<Vec<char>>) -> (r: Vec<char>)
    ensures
        r@ == spec_cat_lines(views_of(ls@)),
{
    let mut r: Vec<char> = Vec::new();
    let mut i: usize = 0;
    proof {
        assert(views_of(ls@).skip(0) =~= views_of(ls@));
        assert(Seq::<char>::empty() + spec_cat_lines(views_of(ls@)) =~= spec_cat_lines(
            views_of(ls@),
        ));
    }
    while i < ls.len()
        invariant
            i <= ls@.len(),
            views_of(ls@).len() == ls@.len(),
            spec_cat_lines(views_of(ls@)) == r@ + spec_cat_lines(views_of(ls@).skip(i as int)),
        decreases ls@.len() - i,
    {
        let ghost rem = views_of(ls@).skip(i as int);
        let ghost r_old = r@;
        extend_chars(&mut r, &ls[i]);
        r.push('\n');
        proof {
            assert(rem[0] == views_of(ls@)[i as int]);
            assert(rem.drop_first() =~= views_of(ls@).skip(i + 1));
            assert(r@ =~= r_old + (rem[0] + seq!['\n']));
        }
        i = i + 1;
    }
    proof {
        assert(spec_cat_lines(views_of(ls@).skip(i as int)) =~= Seq::<char>::empty());
        assert(r@ =~= r@ + Seq::<char>::empty());
        assert(views_of(ls@).skip(0) =~= views_of(ls@));
    }
    r
}

/// `s` with every occurrence of `pat` replaced by `rep`, scanning left
/// to right without overlap.
pub open spec fn spec_replace(s: Seq<char>, pat: Seq<char>, rep: Seq<char>) -> Seq<char>
    decreases s.len(),
{
    if pat.len() == 0 || s.len() == 0 {
        s
    } else if spec_starts_with(s, pat) {
        rep + spec_replace(s.skip(pat.len() as int), pat, rep)
    } else {
        seq![s[0]] + spec_replace(s.drop_first(), pat, rep)
    }
}

pub fn replace_chars(v: &Vec<char>, pat: &Vec<char>, rep: &Vec<char>) -> (r: Vec<char>)
    requires
        pat@.len() > 0,
    ensures
        r@ == spec_replace(v@, pat@, rep@),
{
    let mut r: Vec<char> = Vec::new();
    let mut pos: usize = 0;
    proof {
        assert(v@.skip(0) =~= v@);
    }
    while pos < v.len()
        invariant
            pat@.len() > 0,
            pos <= v@.len(),
            spec_replace(v@, pat@, rep@) == r@ + spec_replace(v@.skip(pos as int), pat@, rep@),
        decreases v@.len() - pos,
    {
        let ghost rem = v@.skip(pos as int);
        let ghost r_old = r@;
        let tail = subrange_of(v, pos, v.len());
        proof {
            assert(tail@ =~= rem);
        }
        if starts_with(&tail, pat) {
            let mut k: usize = 0;
            while k < rep.len()
                invariant
                    k <= rep@.len(),
                    r@ == r_old + rep@.take(k as int),
                decreases rep@.len() - k,
            {
                r.push(rep[k]);
                k = k + 1;
                proof {
                    assert(r@ =~= r_old + rep@.take(k as int));
                }
            }
            proof {
                assert(r@ =~= r_old + rep@);
                assert(rem.skip(pat@.len() as int) =~= v@.skip(pos + pat@.len()));
            }
            pos = pos + pat.len();
        } else {
            r.push(v[pos]);
            proof {
                assert(rem[0] == v@[pos as int]);
                assert(rem.drop_first() =~= v@.skip(pos + 1));
                assert(r@ =~= r_old + seq![rem[0]]);
            }
            pos = pos + 1;
        }
    }
    proof {
        assert(spec_replace(v@.skip(pos as int), pat@, rep@) =~= Seq::<char>::empty());
        assert(r@ =~= r@ + Seq::<char>::empty());
    }
    r
}

/// `pat` occurs in `s` at position `i`.
pub open spec fn matches_at(s: Seq<char>, pat: Seq<char>, i: int) -> bool {
    0 <= i && i + pat.len() <= s.len() && s.subrange(i, i + pat.len()) == pat
}

/// The first position where `pat` occurs in `s`.
pub open spec fn spec_find_sub(s: Seq<char>, pat: Seq<char>) -> Option<int>
    decreases s.len(),
{
    if s.len() < pat.len() {
        None
    } else if spec_starts_with(s, pat) {
        Some(0int)
    } else if s.len() == 0 {
        None
    } else {
        match spec_find_sub(s.drop_first(), pat) {
            None => None,
            Some(i) => Some(i + 1),
        }
    }
}

proof fn lemma_find_sub(s: Seq<char>, pat: Seq<char>)
    ensures
        match spec_find_sub(s, pat) {
            Some(i) => matches_at(s, pat, i) && forall|j: int| 0 <= j < i ==> !matches_at(
                s,
                pat,
                j,
            ),
            None => forall|j: int| 0 <= j <= s.len() - pat.len() ==> !matches_at(s, pat, j),
        },
    decreases s.len(),
{
    if s.len() < pat.len() {
        assert forall|j: int| 0 <= j <= s.len() - pat.len() implies !matches_at(s, pat, j) by {}
    } else if spec_starts_with(s, pat) {
        assert(s.subrange(0, pat.len() as int) =~= s.take(pat.len() as int));
    } else if s.len() == 0 {
    } else {
        let t = s.drop_first();
        lemma_find_sub(t, pat);
        assert(!matches_at(s, pat, 0)) by {
            assert(s.subrange(0, pat.len() as int) =~= s.take(pat.len() as int));
        }
        match spec_find_sub(t, pat) {
            Some(i) => {
                assert(matches_at(t, pat, i));
                assert(s.subrange(i + 1, i + 1 + pat.len()) =~= t.subrange(i, i + pat.len()));
                assert(matches_at(s, pat, i + 1));
                assert forall|j: int| 0 <= j < i + 1 implies !matches_at(s, pat, j) by {
                    if j > 0 {
                        assert(!matches_at(t, pat, j - 1));
                        if matches_at(s, pat, j) {
                            assert(t.subrange(j - 1, j - 1 + pat.len()) =~= s.subrange(
                                j,
                                j + pat.len(),
                            ));
                        }
                    }
                }
            },
            None => {
                assert forall|j: int| 0 <= j <= s.len() - pat.len() implies !matches_at(
                    s,
                    pat,
                    j,
                ) by {
                    if j > 0 {
                        assert(!matches_at(t, pat, j - 1));
                        if matches_at(s, pat, j) {
                            assert(t.subrange(j - 1, j - 1 + pat.len()) =~= s.subrange(
                                j,
                                j + pat.len(),
                            ));
                        }
                    }
                }
            },
        }
    }
}

/// The first position at or after `start` where `pat` occurs in `v`.
pub fn find_sub_from(v: &Vec<char>, start: usize, pat: &Vec<char>) -> (r: Option<usize>)
    requires
        start <= v@.len(),
        pat@.len() > 0,
    ensures
        match r {
            Some(i) => start <= i && matches_at(v@, pat@, i as int) && forall|j: int|
                start <= j < i ==> !matches_at(v@, pat@, j),
            None => forall|j: int| start <= j ==> !matches_at(v@, pat@, j),
        },
{
    if v.len() < pat.len() {
        return None;
    }
    let mut i: usize = start;
    while i <= v.len() - pat.len()
        invariant
            start <= i <= v@.len(),
            pat@.len() > 0,
            pat@.len() <= v@.len(),
            forall|j: int| start <= j < i ==> !matches_at(v@, pat@, j),
        decreases v@.len() - i,
    {
        let mut k: usize = 0;
        let mut hit = true;
        while k < pat.len()
            invariant
                i + pat@.len() <= v@.len() <= usize::MAX,
                k <= pat@.len(),
                hit ==> forall|m: int| 0 <= m < k ==> v@[i + m] == pat@[m],
                !hit ==> !matches_at(v@, pat@, i as int),
            decreases pat@.len() - k,
        {
            if v[i + k] != pat[k] {
                proof {
                    assert(v@.subrange(i as int, i + pat@.len())[k as int] != pat@[k as int]);
                }
                hit = false;
                k = pat.len();
            } else {
                k = k + 1;
            }
        }
        if hit {
            proof {
                assert(v@.subrange(i as int, i + pat@.len()) =~= pat@);
            }
            return Some(i);
        }
        i = i + 1;
    }
    proof {
        assert forall|j: int| start <= j implies !matches_at(v@, pat@, j) by {
            if j + pat@.len() <= v@.len() {
                assert(j < i);
            }
        }
    }
    None
}

/// The pieces of `s` split at every occurrence of `pat`, scanning left
/// to right without overlap.
pub open spec fn spec_split_sub(s: Seq<char>, pat: Seq<char>) -> Seq<Seq<char>>
    decreases s.len(),
{
    match spec_find_sub(s, pat) {
        None => seq![s],
        Some(i) => if pat.len() > 0 && 0 <= i && i + pat.len() <= s.len() {
            seq![s.take(i)] + spec_split_sub(s.skip(i + pat.len()), pat)
        } else {
            seq![s]
        },
    }
}

pub fn split_sub(v: &Vec<char>, pat: &Vec<char>) -> (r: Vec<Vec<char>>)
    requires
        pat@.len() > 0,
    ensures
        views_of(r@) == spec_split_sub(v@, pat@),
{
    let mut r: Vec<Vec<char>> = Vec::new();
    let mut pos: usize = 0;
    let n = v.len();
    proof {
        assert(v@.skip(0) =~= v@);
        assert(views_of(r@) =~= Seq::<Seq<char>>::empty());
    }
    loop
        invariant
            pos <= n == v@.len(),
            pat@.len() > 0,
            spec_split_sub(v@, pat@) == views_of(r@) + spec_split_sub(v@.skip(pos as int), pat@),
        decreases v@.len() - pos + 1,
    {
        let ghost rem = v@.skip(pos as int);
        let ghost r_old = views_of(r@);
        match find_sub_from(v, pos, pat) {
            None => {
                proof {
                    lemma_find_sub(rem, pat@);
                    if spec_find_sub(rem, pat@) is Some {
                        let fi = spec_find_sub(rem, pat@)->Some_0;
                        assert(matches_at(rem, pat@, fi));
                        assert(rem.subrange(fi, fi + pat@.len()) =~= v@.subrange(
                            pos + fi,
                            pos + fi + pat@.len(),
                        ));
                        assert(matches_at(v@, pat@, pos + fi));
                    }
                    assert(spec_split_sub(rem, pat@) == seq![rem]);
                }
                let piece = subrange_of(v, pos, v.len());
                proof {
                    assert(piece@ =~= rem);
                }
                r.push(piece);
                proof {
                    assert(views_of(r@) =~= r_old + seq![rem]);
                }
                return r;
            },
            Some(i) => {
                proof {
                    lemma_find_sub(rem, pat@);
                    assert(rem.subrange(i - pos, i - pos + pat@.len()) =~= v@.subrange(
                        i as int,
                        i + pat@.len(),
                    ));
                    assert(matches_at(rem, pat@, i - pos));
                    if spec_find_sub(rem, pat@) is None {
                        assert(false);
                    }
                    let fi = spec_find_sub(rem, pat@)->Some_0;
                    assert(matches_at(rem, pat@, fi));
                    if fi < i - pos {
                        assert(rem.subrange(fi, fi + pat@.len()) =~= v@.subrange(
                            pos + fi,
                            pos + fi + pat@.len(),
                        ));
                        assert(matches_at(v@, pat@, pos + fi));
                        assert(false);
                    }
                    if fi > i - pos {
                        assert(!matches_at(rem, pat@, i - pos));
                        assert(false);
                    }
                    assert(spec_split_sub(rem, pat@) == seq![rem.take(fi)] + spec_split_sub(
                        rem.skip(fi + pat@.len()),
                        pat@,
                    ));
                    assert(rem.take(i - pos) =~= v@.subrange(pos as int, i as int));
                    assert(rem.skip(i - pos + pat@.len()) =~= v@.skip(i + pat@.len()));
                }
                let piece = subrange_of(v, pos, i);
                r.push(piece);
                proof {
                    assert(views_of(r@) =~= r_old + seq![rem.take(i - pos)]);
                }
                pos = i + pat.len();
            },
        }
    }
}

/// `s` with every leading occurrence of the prefix `p` removed.
pub open spec fn spec_strip_all_prefix(s: Seq<char>, p: Seq<char>) -> Seq<char>
    decreases s.len(),
{
    if p.len() > 0 && spec_starts_with(s, p) {
        spec_strip_all_prefix(s.skip(p.len() as int), p)
    } else {
        s
    }
}

pub fn strip_all_prefix(v: &Vec<char>, p: &Vec<char>) -> (r: Vec<char>)
    requires
        p@.len() > 0,
    ensures
        r@ == spec_strip_all_prefix(v@, p@),
    decreases v@.len(),
{
    if starts_with(v, p) && p.len() > 0 {
        let shorter = subrange_of(v, p.len(), v.len());
        proof {
            assert(shorter@ =~= v@.skip(p@.len() as int));
        }
        strip_all_prefix(&shorter, p)
    } else {
        copy_chars(v)
    }
}

/// Splitting a newline-joined list of lines recovers the lines, as
/// long as each line is non-empty, holds no newline, and does not end
/// in a carriage return.
pub proof fn lemma_lines_of_join(ls: Seq<Seq<char>>)
    requires
        forall|k: int| 0 <= k < ls.len() ==> (#[trigger] ls[k]).len() > 0,
        forall|k: int, i: int|
            0 <= k < ls.len() && 0 <= i < ls[k].len() ==> #[trigger] ls[k][i] != '\n',
        forall|k: int| 0 <= k < ls.len() ==> (#[trigger] ls[k])[ls[k].len() - 1] != '\r',
    ensures
        spec_lines(spec_join(ls, '\n')) == ls,
    decreases ls.len(),
{
    if ls.len() == 0 {
        assert(spec_lines(spec_join(ls, '\n')) =~= ls);
    } else if ls.len() == 1 {
        let s = spec_join(ls, '\n');
        assert(spec_join_rest(ls.drop_first(), '\n') =~= Seq::<char>::empty());
        assert(s =~= ls[0]);
        lemma_find_char(s, '\n');
        if spec_find(s, '\n') is Some {
            let i = spec_find(s, '\n')->Some_0;
            assert(ls[0][i] == '\n');
            assert(false);
        }
        assert(spec_lines(s) =~= ls);
    } else {
        let dl = ls.drop_first();
        let s = spec_join(ls, '\n');
        let n = ls[0].len() as int;
        assert(spec_join_rest(dl, '\n') =~= seq!['\n'] + spec_join(dl, '\n')) by {
            assert(spec_join(dl, '\n') == dl[0] + spec_join_rest(dl.drop_first(), '\n'));
            assert(seq!['\n'] + (dl[0] + spec_join_rest(dl.drop_first(), '\n')) =~= seq!['\n']
                + dl[0] + spec_join_rest(dl.drop_first(), '\n'));
        }
        assert(s =~= ls[0] + seq!['\n'] + spec_join(dl, '\n'));
        assert(s[n] == '\n');
        lemma_find_char(s, '\n');
        match spec_find(s, '\n') {
            None => {
                assert(s[n] != '\n');
                assert(false);
            },
            Some(i) => {
                if i < n {
                    assert(s[i] == ls[0][i]);
                    assert(false);
                }
                if i > n {
                    assert(s[n] != '\n');
                    assert(false);
                }
                assert(i == n);
                assert(s.take(n) =~= ls[0]);
                assert(strip_cr(s.take(n)) == ls[0]);
                assert(s.skip(n + 1) =~= spec_join(dl, '\n'));
                assert forall|k: int| 0 <= k < dl.len() implies (#[trigger] dl[k]).len() > 0 by {
                    assert(dl[k] == ls[k + 1]);
                }
                assert forall|k: int, j: int|
                    0 <= k < dl.len() && 0 <= j < dl[k].len() implies #[trigger] dl[k][j]
                    != '\n' by {
                    assert(dl[k] == ls[k + 1]);
                    assert(ls[k + 1][j] != '\n');
                }
                assert forall|k: int| 0 <= k < dl.len() implies (#[trigger] dl[k])[dl[k].len()
                    - 1] != '\r' by {
                    assert(dl[k] == ls[k + 1]);
                }
                lemma_lines_of_join(dl);
                assert(spec_lines(s) == seq![strip_cr(s.take(i))] + spec_lines(s.skip(i + 1)));
                assert(spec_lines(s) =~= ls);
            },
        }
    }
}

/// Trimming the end leaves no trailing whitespace.
pub proof fn lemma_trim_end_shape(s: Seq<char>)
    ensures
        spec_trim_end(s).len() == 0 || !is_space(spec_trim_end(s)[spec_trim_end(s).len() - 1]),
    decreases s.len(),
{
    if s.len() > 0 && is_space(s[s.len() - 1]) {
        lemma_trim_end_shape(s.drop_last());
    }
}

/// The character of one decimal digit.
pub open spec fn spec_digit(d: int) -> char {
    if d == 0 {
        '0'
    } else if d == 1 {
        '1'
    } else if d == 2 {
        '2'
    } else if d == 3 {
        '3'
    } else if d == 4 {
        '4'
    } else if d == 5 {
        '5'
    } else if d == 6 {
        '6'
    } else if d == 7 {
        '7'
    } else if d == 8 {
        '8'
    } else {
        '9'
    }
}

/// The decimal digits of a non-negative number, most significant first.
pub open spec fn spec_dec_nat(n: nat) -> Seq<char>
    decreases n,
{
    if n < 10 {
        seq![spec_digit(n as int)]
    } else {
        spec_dec_nat(n / 10) + seq![spec_digit((n % 10) as int)]
    }
}

/// The decimal form of an integer, a minus sign for a negative one.
pub open spec fn spec_dec_int(n: int) -> Seq<char> {
    if n < 0 {
        seq!['-'] + spec_dec_nat((-n) as nat)
    } else {
        spec_dec_nat(n as nat)
    }
}

fn digit_char(d: u64) -> (c: char)
    requires
        d < 10,
    ensures
        c == spec_digit(d as int),
{
    if d == 0 {
        '0'
    } else if d == 1 {
        '1'
    } else if d == 2 {
        '2'
    } else if d == 3 {
        '3'
    } else if d == 4 {
        '4'
    } else if d == 5 {
        '5'
    } else if d == 6 {
        '6'
    } else if d == 7 {
        '7'
    } else if d == 8 {
        '8'
    } else {
        '9'
    }
}

/// The decimal digits of `n`.
pub fn dec_u64(n: u64) -> (r: Vec<char>)
    ensures
        r@ == spec_dec_nat(n as nat),
    decreases n,
{
    if n < 10 {
        let mut r: Vec<char> = Vec::new();
        r.push(digit_char(n));
        proof {
            assert(r@ =~= seq![spec_digit(n as int)]);
        }
        r
    } else {
        let mut r = dec_u64(n / 10);
        r.push(digit_char(n % 10));
        proof {
            assert(r@ =~= spec_dec_nat((n / 10) as nat) + seq![spec_digit((n % 10) as int)]);
        }
        r
    }
}

/// The decimal form of `n`, a leading minus sign when negative.
pub fn dec_i32(n: i32) -> (r: Vec<char>)
    ensures
        r@ == spec_dec_int(n as int),
{
    if n >= 0 {
        dec_u64(n as u64)
    } else {
        let m: u64 = (-(n as i64)) as u64;
        let mut r: Vec<char> = Vec::new();
        r.push('-');
        let ds = dec_u64(m);
        extend_chars(&mut r, &ds);
        proof {
            assert(r@ =~= seq!['-'] + spec_dec_nat((-(n as int)) as nat));
        }
        r
    }
}

} // verus!
