//! Slash-separated paths as texts: components, prefixes, parents and lexical normal form.

use crate::text::{chars_of, find_char, lemma_next_of, next_of, opt_text, same_text, text_of, texts};
use vstd::prelude::*;
use vstd::string::*;

verus! {

/// One component of a path, by its characters.
pub enum PartV {
    Root,
    Here,
    Up,
    Name(Seq<char>),
}

/// One component of a path.
pub enum Part {
    Root,
    Here,
    Up,
    Name(String),
}

impl Part {
    pub open spec fn view(&self) -> PartV {
        match self {
            Part::Root => PartV::Root,
            Part::Here => PartV::Here,
            Part::Up => PartV::Up,
            Part::Name(s) => PartV::Name(s@),
        }
    }

    /// The component as it is written.
    pub fn text(&self) -> (r: String)
        ensures
            r@ == part_text(self@),
    {
        let mut out = String::new();
        match self {
            Part::Root => {
                out.push('/');
            },
            Part::Here => {
                out.push('.');
            },
            Part::Up => {
                out.push('.');
                out.push('.');
            },
            Part::Name(s) => {
                out = s.clone();
            },
        }
        assert(out@ =~= part_text(self@));
        out
    }

    fn same(&self, other: &Part) -> (r: bool)
        ensures
            r <==> self@ == other@,
    {
        match (self, other) {
            (Part::Root, Part::Root) => true,
            (Part::Here, Part::Here) => true,
            (Part::Up, Part::Up) => true,
            (Part::Name(a), Part::Name(b)) => same_text(a.as_str(), b.as_str()),
            _ => false,
        }
    }
}

pub open spec fn part_text(p: PartV) -> Seq<char> {
    match p {
        PartV::Root => seq!['/'],
        PartV::Here => seq!['.'],
        PartV::Up => seq!['.', '.'],
        PartV::Name(s) => s,
    }
}

pub open spec fn parts_v(v: Seq<Part>) -> Seq<PartV> {
    v.map_values(|p: Part| p@)
}

/// A path from the root.
pub open spec fn absolute(s: Seq<char>) -> bool {
    s.len() > 0 && s[0] == '/'
}

/// What stands between two slashes is a component unless it is empty or a single dot. A dot counts
/// where the path begins with it.
pub open spec fn counts(s: Seq<char>, from: int, to: int) -> bool {
    from < to && !(from > 0 && to == from + 1 && s[from] == '.')
}

/// Where the components of a path stand in its text, from position `from` on.
pub open spec fn spans(s: Seq<char>, from: int) -> Seq<(int, int)>
    decreases s.len() - from,
    when 0 <= from <= s.len()
    via spans_decreases
{
    let to = next_of(s, '/', from);
    let rest = if to < s.len() {
        spans(s, to + 1)
    } else {
        Seq::empty()
    };
    if counts(s, from, to) {
        seq![(from, to)] + rest
    } else {
        rest
    }
}

#[via_fn]
proof fn spans_decreases(s: Seq<char>, from: int) {
    lemma_next_of(s, '/', from);
}

/// The component that stands at a place of a text.
pub open spec fn part_at(s: Seq<char>, at: (int, int)) -> PartV {
    let t = s.subrange(at.0, at.1);
    if t == seq!['.'] {
        PartV::Here
    } else if t == seq!['.', '.'] {
        PartV::Up
    } else {
        PartV::Name(t)
    }
}

/// The components of a path.
pub open spec fn parts_of(s: Seq<char>) -> Seq<PartV> {
    (if absolute(s) {
        seq![PartV::Root]
    } else {
        Seq::empty()
    }) + spans(s, 0).map_values(|x: (int, int)| part_at(s, x))
}

pub open spec fn span_v(v: Seq<(usize, usize)>) -> Seq<(int, int)> {
    v.map_values(|x: (usize, usize)| (x.0 as int, x.1 as int))
}

pub open spec fn inside(v: Seq<(int, int)>, len: nat) -> bool {
    forall|i: int| 0 <= i < v.len() ==> 0 <= (#[trigger] v[i]).0 <= v[i].1 <= len
}

fn find_spans(chars: &Vec<char>) -> (r: Vec<(usize, usize)>)
    ensures
        span_v(r@) == spans(chars@, 0),
        inside(span_v(r@), chars@.len()),
        forall|i: int, j: int|
            0 <= i < j < r@.len() ==> (#[trigger] r@[i]).1 <= (#[trigger] r@[j]).0,
{
    let mut out: Vec<(usize, usize)> = Vec::new();
    let mut from: usize = 0;
    assert(span_v(out@) + spans(chars@, 0) =~= spans(chars@, 0));
    loop
        invariant
            from <= chars@.len(),
            span_v(out@) + spans(chars@, from as int) == spans(chars@, 0),
            inside(span_v(out@), chars@.len()),
            forall|i: int| 0 <= i < out@.len() ==> (#[trigger] out@[i]).0 <= out@[i].1 <= from,
            forall|i: int, j: int|
                0 <= i < j < out@.len() ==> (#[trigger] out@[i]).1 <= (#[trigger] out@[j]).0,
        decreases chars@.len() - from,
    {
        let to = find_char(chars, '/', from);
        let ghost before = out@;
        if from < to && !(from > 0 && to == from + 1 && chars[from] == '.') {
            out.push((from, to));
            assert(span_v(out@) =~= span_v(before).push((from as int, to as int)));
        }
        if to >= chars.len() {
            assert(span_v(out@) =~= span_v(before) + spans(chars@, from as int));
            return out;
        }
        assert(span_v(out@) + spans(chars@, to as int + 1) =~= span_v(before) + spans(
            chars@,
            from as int,
        ));
        from = to + 1;
    }
}

/// Whether a path starts at the root.
pub fn is_absolute(s: &str) -> (r: bool)
    ensures
        r <==> absolute(s@),
{
    s.unicode_len() > 0 && s.get_char(0) == '/'
}

/// The components of a path.
pub fn parts(s: &str) -> (r: Vec<Part>)
    ensures
        parts_v(r@) == parts_of(s@),
{
    let chars = chars_of(s);
    let at = find_spans(&chars);
    let mut out: Vec<Part> = Vec::new();
    if is_absolute(s) {
        out.push(Part::Root);
    }
    let ghost start = parts_v(out@);
    let ghost all = spans(s@, 0).map_values(|x: (int, int)| part_at(s@, x));
    let mut i: usize = 0;
    assert(start =~= if absolute(s@) {
        seq![PartV::Root]
    } else {
        Seq::empty()
    });
    assert(parts_v(out@) =~= start + all.take(0));
    while i < at.len()
        invariant
            i <= at@.len(),
            chars@ == s@,
            span_v(at@) == spans(s@, 0),
            inside(span_v(at@), chars@.len()),
            all == spans(s@, 0).map_values(|x: (int, int)| part_at(s@, x)),
            parts_v(out@) == start + all.take(i as int),
        decreases at@.len() - i,
    {
        let (from, to) = at[i];
        assert(span_v(at@)[i as int] == (from as int, to as int));
        let t = text_of(&chars, from, to);
        assert(t@ == s@.subrange(from as int, to as int));
        let part = if to - from == 1 && chars[from] == '.' {
            assert(t@ =~= seq!['.']);
            Part::Here
        } else if to - from == 2 && chars[from] == '.' && chars[from + 1] == '.' {
            assert(t@ =~= seq!['.', '.']);
            Part::Up
        } else {
            proof {
                assert(t@ != seq!['.']) by {
                    if t@.len() == 1 {
                        assert(t@[0] == chars@[from as int]);
                    }
                }
                assert(t@ != seq!['.', '.']) by {
                    if t@.len() == 2 {
                        assert(t@[0] == chars@[from as int]);
                        assert(t@[1] == chars@[from as int + 1]);
                    }
                }
            }
            Part::Name(t)
        };
        let ghost before = out@;
        assert(part@ == part_at(s@, (from as int, to as int)));
        assert(all[i as int] == part@);
        out.push(part);
        assert(parts_v(out@) =~= parts_v(before).push(part@));
        assert(all.take(i as int + 1) =~= all.take(i as int).push(all[i as int]));
        assert(parts_v(out@) =~= start + all.take(i as int + 1));
        i = i + 1;
    }
    assert(all.take(i as int) =~= all);
    out
}

/// `s` lies at or below `prefix`, component by component.
pub open spec fn begins(s: Seq<char>, prefix: Seq<char>) -> bool {
    parts_of(prefix).len() <= parts_of(s).len() && parts_of(s).take(parts_of(prefix).len() as int)
        == parts_of(prefix)
}

pub fn starts_with(s: &str, prefix: &str) -> (r: bool)
    ensures
        r <==> begins(s@, prefix@),
{
    let a = parts(s);
    let b = parts(prefix);
    if b.len() > a.len() {
        return false;
    }
    let mut i: usize = 0;
    while i < b.len()
        invariant
            i <= b@.len() <= a@.len(),
            parts_v(a@) == parts_of(s@),
            parts_v(b@) == parts_of(prefix@),
            forall|j: int| 0 <= j < i ==> parts_of(s@)[j] == parts_of(prefix@)[j],
        decreases b@.len() - i,
    {
        assert(parts_v(a@)[i as int] == a@[i as int]@);
        assert(parts_v(b@)[i as int] == b@[i as int]@);
        if !a[i].same(&b[i]) {
            proof {
                let n = parts_of(prefix@).len() as int;
                assert(parts_of(s@).take(n)[i as int] != parts_of(prefix@)[i as int]);
            }
            return false;
        }
        i = i + 1;
    }
    assert(parts_of(s@).take(parts_of(prefix@).len() as int) =~= parts_of(prefix@));
    true
}

/// Whether two paths have the same components.
pub fn same_path(a: &str, b: &str) -> (r: bool)
    ensures
        r <==> parts_of(a@) == parts_of(b@),
{
    let r = starts_with(a, b) && starts_with(b, a);
    proof {
        let x = parts_of(a@);
        let y = parts_of(b@);
        assert(x.take(x.len() as int) =~= x);
        assert(y.take(y.len() as int) =~= y);
    }
    r
}

/// What is left of a path below a prefix, as it is written.
pub open spec fn remainder(s: Seq<char>, prefix: Seq<char>) -> Option<Seq<char>> {
    let at = spans(s, 0);
    let skip = spans(prefix, 0).len();
    if !begins(s, prefix) {
        None
    } else if parts_of(prefix).len() == 0 {
        Some(s)
    } else if skip < at.len() {
        Some(s.subrange(at[skip as int].0, at.last().1))
    } else {
        Some(Seq::empty())
    }
}

pub fn strip_prefix(s: &str, prefix: &str) -> (r: Option<String>)
    ensures
        opt_text(r) == remainder(s@, prefix@),
{
    if !starts_with(s, prefix) {
        return None;
    }
    let chars = chars_of(s);
    let at = find_spans(&chars);
    let pre = chars_of(prefix);
    let skip = find_spans(&pre).len();
    assert(skip == spans(prefix@, 0).len());
    if prefix.unicode_len() == 0 {
        assert(prefix@ =~= Seq::<char>::empty());
        assert(spans(prefix@, 0) =~= Seq::<(int, int)>::empty());
        assert(parts_of(prefix@) =~= Seq::<PartV>::empty());
        return Some(text_of(&chars, 0, chars.len()));
    }
    proof {
        lemma_some_part(prefix@);
        assert(at@.len() == spans(s@, 0).len());
    }
    if skip < at.len() {
        let from = at[skip].0;
        let to = at[at.len() - 1].1;
        assert(span_v(at@)[skip as int] == (from as int, at@[skip as int].1 as int));
        assert(span_v(at@).last() == (at@.last().0 as int, to as int));
        assert(span_v(at@)[skip as int].0 <= span_v(at@)[skip as int].1);
        Some(text_of(&chars, from, to))
    } else {
        Some(String::new())
    }
}

proof fn lemma_some_part(s: Seq<char>)
    requires
        s.len() > 0,
    ensures
        parts_of(s).len() > 0,
{
    lemma_next_of(s, '/', 0);
    if !absolute(s) {
        assert(next_of(s, '/', 0) > 0);
        assert(spans(s, 0)[0] == (0int, next_of(s, '/', 0)));
    }
}

/// One path after another. An absolute path replaces what stands before it.
pub open spec fn joined(s: Seq<char>, t: Seq<char>) -> Seq<char> {
    if absolute(t) || s.len() == 0 {
        t
    } else if s.last() == '/' {
        s + t
    } else {
        s.push('/') + t
    }
}

pub fn join(s: &str, t: &str) -> (r: String)
    ensures
        r@ == joined(s@, t@),
{
    let n = s.unicode_len();
    if is_absolute(t) || n == 0 {
        return t.to_owned();
    }
    let mut out = s.to_owned();
    if s.get_char(n - 1) != '/' {
        out.push('/');
    }
    out.append(t);
    out
}

/// The path without its last component.
pub open spec fn parent_of(s: Seq<char>) -> Option<Seq<char>> {
    let at = spans(s, 0);
    if at.len() == 0 {
        None
    } else if at.len() == 1 {
        Some(
            if absolute(s) {
                seq!['/']
            } else {
                Seq::empty()
            },
        )
    } else {
        Some(s.take(at[at.len() - 2].1))
    }
}

/// The last component, where it is a name.
pub open spec fn last_name(s: Seq<char>) -> Option<Seq<char>> {
    let p = parts_of(s);
    if p.len() > 0 {
        match p.last() {
            PartV::Name(n) => Some(n),
            _ => None,
        }
    } else {
        None
    }
}

pub fn parent(s: &str) -> (r: Option<String>)
    ensures
        opt_text(r) == parent_of(s@),
{
    let chars = chars_of(s);
    let at = find_spans(&chars);
    assert(at@.len() == spans(s@, 0).len());
    let n = at.len();
    if n == 0 {
        None
    } else if n == 1 {
        let mut out = String::new();
        if is_absolute(s) {
            out.push('/');
        }
        assert(out@ =~= if absolute(s@) {
            seq!['/']
        } else {
            Seq::empty()
        });
        Some(out)
    } else {
        let to = at[n - 2].1;
        assert(span_v(at@)[n - 2] == (at@[n - 2].0 as int, to as int));
        let out = text_of(&chars, 0, to);
        assert(s@.subrange(0, to as int) =~= s@.take(to as int));
        Some(out)
    }
}

pub fn file_name(s: &str) -> (r: Option<String>)
    ensures
        opt_text(r) == last_name(s@),
{
    let p = parts(s);
    let n = p.len();
    assert(n == parts_of(s@).len());
    if n == 0 {
        return None;
    }
    assert(parts_v(p@).last() == p@[n - 1]@);
    match &p[n - 1] {
        Part::Name(t) => Some(t.clone()),
        _ => None,
    }
}

/// The components of a path stand one after another in its text.
proof fn lemma_spans(s: Seq<char>, from: int)
    requires
        0 <= from <= s.len(),
    ensures
        forall|i: int|
            0 <= i < spans(s, from).len() ==> from <= (#[trigger] spans(s, from)[i]).0 < spans(
                s,
                from,
            )[i].1 <= s.len(),
        forall|i: int, j: int|
            0 <= i < j < spans(s, from).len() ==> (#[trigger] spans(s, from)[i]).1 < (
            #[trigger] spans(s, from)[j]).0,
    decreases s.len() - from,
{
    lemma_next_of(s, '/', from);
    let to = next_of(s, '/', from);
    if to < s.len() {
        lemma_spans(s, to + 1);
        let rest = spans(s, to + 1);
        let all = spans(s, from);
        if counts(s, from, to) {
            assert forall|i: int| 0 <= i < all.len() implies from <= (#[trigger] all[i]).0
                < all[i].1 <= s.len() by {
                if i > 0 {
                    assert(all[i] == rest[i - 1]);
                }
            }
            assert forall|i: int, j: int| 0 <= i < j < all.len() implies (#[trigger] all[i]).1 < (
            #[trigger] all[j]).0 by {
                assert(all[j] == rest[j - 1]);
                if i > 0 {
                    assert(all[i] == rest[i - 1]);
                }
            }
        }
    }
}

/// A parent has a shorter text.
pub proof fn lemma_parent_shorter(s: Seq<char>)
    ensures
        match parent_of(s) {
            Some(p) => p.len() < s.len(),
            None => true,
        },
        last_name(s) is Some ==> parent_of(s) is Some,
{
    let at = spans(s, 0);
    lemma_spans(s, 0);
    if at.len() > 1 {
        let i = at.len() - 2;
        assert(at[i].1 < at[i + 1].0);
        assert(at[i + 1].0 < at[i + 1].1);
    } else if at.len() == 1 {
        assert(at[0].0 < at[0].1 <= s.len());
        if absolute(s) {
            assert(next_of(s, '/', 0) == 0);
            lemma_spans(s, 1);
            assert(at == spans(s, 1));
            assert(1 <= spans(s, 1)[0].0);
        }
    }
}

/// The names that a path goes through, with each step up taken back. `None` where it climbs above the
/// root.
pub open spec fn lexical_names(p: Seq<PartV>, above: Seq<Seq<char>>) -> Option<Seq<Seq<char>>>
    decreases p.len(),
{
    if p.len() == 0 {
        Some(above)
    } else {
        let rest = p.drop_first();
        match p[0] {
            PartV::Root => lexical_names(rest, Seq::empty()),
            PartV::Here => lexical_names(rest, above),
            PartV::Up => if above.len() == 0 {
                None
            } else {
                lexical_names(rest, above.drop_last())
            },
            PartV::Name(n) => lexical_names(rest, above.push(n)),
        }
    }
}

/// An absolute path written from its names.
pub open spec fn absolute_text(names: Seq<Seq<char>>) -> Seq<char>
    decreases names.len(),
{
    if names.len() == 0 {
        seq!['/']
    } else {
        joined(absolute_text(names.drop_last()), names.last())
    }
}

/// The lexical normal form of an absolute path.
pub open spec fn lexical(s: Seq<char>) -> Option<Seq<char>> {
    match lexical_names(parts_of(s), Seq::empty()) {
        Some(names) => Some(absolute_text(names)),
        None => None,
    }
}

/// Resolves the steps up of an absolute path without looking at the file system.
pub fn normalize(s: &str) -> (r: Option<String>)
    ensures
        opt_text(r) == lexical(s@),
{
    let p = parts(s);
    let mut names: Vec<String> = Vec::new();
    let mut i: usize = 0;
    let ghost all = parts_of(s@);
    assert(all.skip(0) =~= all);
    assert(texts(names@) =~= Seq::<Seq<char>>::empty());
    while i < p.len()
        invariant
            i <= p@.len(),
            all == parts_of(s@),
            parts_v(p@) == all,
            lexical_names(all.skip(i as int), texts(names@)) == lexical_names(all, Seq::empty()),
        decreases p@.len() - i,
    {
        let ghost before = texts(names@);
        proof {
            assert(all.skip(i as int)[0] == p@[i as int]@);
            assert(all.skip(i as int).drop_first() =~= all.skip(i as int + 1));
        }
        match &p[i] {
            Part::Root => {
                names = Vec::new();
                assert(texts(names@) =~= Seq::<Seq<char>>::empty());
            },
            Part::Here => {},
            Part::Up => {
                if names.len() == 0 {
                    return None;
                }
                names.pop();
                assert(texts(names@) =~= before.drop_last());
            },
            Part::Name(n) => {
                names.push(n.clone());
                assert(texts(names@) =~= before.push(n@));
            },
        }
        i = i + 1;
    }
    assert(all.skip(i as int) =~= Seq::<PartV>::empty());
    let mut out = String::new();
    out.push('/');
    assert(out@ =~= absolute_text(texts(names@).take(0)));
    let mut k: usize = 0;
    while k < names.len()
        invariant
            k <= names@.len(),
            out@ == absolute_text(texts(names@).take(k as int)),
        decreases names@.len() - k,
    {
        proof {
            let t = texts(names@).take(k as int + 1);
            assert(t.drop_last() =~= texts(names@).take(k as int));
            assert(t.last() == names@[k as int]@);
        }
        out = join(out.as_str(), names[k].as_str());
        k = k + 1;
    }
    assert(texts(names@).take(k as int) =~= texts(names@));
    Some(out)
}

/// A path is below itself.
pub proof fn law_begins_itself(s: Seq<char>)
    ensures
        begins(s, s),
{
    assert(parts_of(s).take(parts_of(s).len() as int) =~= parts_of(s));
}

/// Being below is transitive.
pub proof fn law_begins_transitive(a: Seq<char>, b: Seq<char>, c: Seq<char>)
    requires
        begins(a, b),
        begins(b, c),
    ensures
        begins(a, c),
{
    let n = parts_of(c).len() as int;
    assert(parts_of(a).take(n) =~= parts_of(a).take(parts_of(b).len() as int).take(n));
}

/// Places in a text that stands further on in another.
spec fn shifted(v: Seq<(int, int)>, by: nat) -> Seq<(int, int)> {
    v.map_values(|x: (int, int)| (x.0 + by, x.1 + by))
}

/// The path does not begin with a dot of its own.
spec fn begins_named(t: Seq<char>) -> bool {
    !(next_of(t, '/', 0) == 1 && t[0] == '.')
}

proof fn lemma_next_shifted(a: Seq<char>, b: Seq<char>, from: int)
    requires
        0 <= from <= b.len(),
    ensures
        next_of(a.push('/') + b, '/', from + a.len() + 1) == next_of(b, '/', from) + a.len() + 1,
    decreases b.len() - from,
{
    if from < b.len() && b[from] != '/' {
        lemma_next_shifted(a, b, from + 1);
    }
}

proof fn lemma_next_before(a: Seq<char>, b: Seq<char>, from: int)
    requires
        0 <= from <= a.len(),
    ensures
        next_of(a.push('/') + b, '/', from) == next_of(a, '/', from),
    decreases a.len() - from,
{
    if from < a.len() && a[from] != '/' {
        lemma_next_before(a, b, from + 1);
    }
}

proof fn lemma_spans_shifted(a: Seq<char>, b: Seq<char>, from: int)
    requires
        0 <= from <= b.len(),
        from == 0 ==> begins_named(b),
    ensures
        spans(a.push('/') + b, from + a.len() + 1) == shifted(spans(b, from), a.len() + 1),
    decreases b.len() - from,
{
    let s = a.push('/') + b;
    let n = a.len() + 1;
    lemma_next_of(b, '/', from);
    lemma_next_shifted(a, b, from);
    let to = next_of(b, '/', from);
    if to < b.len() {
        lemma_spans_shifted(a, b, to + 1);
    }
    assert(counts(s, from + n, to + n) == counts(b, from, to)) by {
        if from < b.len() {
            assert(s[from + n] == b[from]);
        }
    }
    assert(spans(s, from + n) =~= shifted(spans(b, from), n));
}

proof fn lemma_spans_joined(a: Seq<char>, b: Seq<char>, from: int)
    requires
        0 <= from <= a.len(),
        begins_named(b),
    ensures
        spans(a.push('/') + b, from) == spans(a, from) + shifted(spans(b, 0), a.len() + 1),
    decreases a.len() - from,
{
    let s = a.push('/') + b;
    lemma_next_of(a, '/', from);
    lemma_next_before(a, b, from);
    let to = next_of(a, '/', from);
    assert(counts(s, from, to) == counts(a, from, to)) by {
        if from < to {
            assert(s[from] == a[from]);
        }
    }
    if to < a.len() {
        lemma_spans_joined(a, b, to + 1);
    } else {
        lemma_spans_shifted(a, b, 0);
    }
    assert(spans(s, from) =~= spans(a, from) + shifted(spans(b, 0), a.len() + 1));
}

/// The text of the path goes on to the end of its last component.
pub open spec fn ends_named(t: Seq<char>) -> bool {
    spans(t, 0).len() > 0 && spans(t, 0).last().1 == t.len()
}

/// A path of names that is written below another has the components of both, and what is left of it
/// below the other is the path itself.
pub proof fn law_path_below(a: Seq<char>, b: Seq<char>)
    requires
        a.len() > 0,
        b.len() > 0,
        !absolute(b),
        !(parts_of(b)[0] is Here),
    ensures
        parts_of(a.push('/') + b) == parts_of(a) + parts_of(b),
        begins(a.push('/') + b, a),
        ends_named(b) ==> remainder(a.push('/') + b, a) == Some(b),
{
    let s = a.push('/') + b;
    lemma_some_part(a);
    lemma_some_part(b);
    lemma_spans(a, 0);
    lemma_spans(b, 0);
    lemma_next_of(b, '/', 0);
    let (x, y) = (spans(a, 0), spans(b, 0));
    assert(y[0] == (0int, next_of(b, '/', 0)));
    assert(parts_of(b)[0] == part_at(b, y[0]));
    assert(begins_named(b)) by {
        if next_of(b, '/', 0) == 1 && b[0] == '.' {
            assert(b.subrange(0, 1) =~= seq!['.']);
        }
    }
    lemma_spans_joined(a, b, 0);
    let z = shifted(y, a.len() + 1);
    assert(absolute(s) == absolute(a)) by {
        assert(s[0] == a[0]);
    }
    assert forall|i: int| 0 <= i < x.len() implies part_at(s, #[trigger] x[i]) == part_at(a, x[i]) by {
        assert(s.subrange(x[i].0, x[i].1) =~= a.subrange(x[i].0, x[i].1));
    }
    assert forall|i: int| 0 <= i < y.len() implies part_at(s, #[trigger] z[i]) == part_at(b, y[i]) by {
        assert(s.subrange(z[i].0, z[i].1) =~= b.subrange(y[i].0, y[i].1));
    }
    assert(parts_of(s) =~= parts_of(a) + parts_of(b));
    assert(parts_of(s).take(parts_of(a).len() as int) =~= parts_of(a));
    if ends_named(b) {
        let at = spans(s, 0);
        assert(at[x.len() as int] == z[0]);
        assert(at.last() == z.last());
        assert(s.subrange(a.len() as int + 1, s.len() as int) =~= b);
    }
}

/// A text without a slash, other than a dot or two, is a path of one name.
pub proof fn lemma_one_name(t: Seq<char>)
    requires
        t.len() > 0,
        forall|i: int| 0 <= i < t.len() ==> t[i] != '/',
        t != seq!['.'],
        t != seq!['.', '.'],
    ensures
        parts_of(t) == seq![PartV::Name(t)],
{
    lemma_next_of(t, '/', 0);
    assert(spans(t, 0) =~= seq![(0int, t.len() as int)]);
    assert(t.subrange(0, t.len() as int) =~= t);
    assert(parts_of(t) =~= seq![PartV::Name(t)]);
}

/// A name of its own: not empty, without a slash, and other than a dot or two.
pub open spec fn proper_name(t: Seq<char>) -> bool {
    &&& t.len() > 0
    &&& forall|i: int| 0 <= i < t.len() ==> t[i] != '/'
    &&& t != seq!['.']
    &&& t != seq!['.', '.']
}

/// Where a component stands: between slashes or ends, with none inside, and no single dot but at the
/// beginning.
spec fn stands_alone(s: Seq<char>, from: int, at: (int, int)) -> bool {
    &&& 0 <= at.0 < at.1 <= s.len()
    &&& at.0 == from || s[at.0 - 1] == '/'
    &&& at.1 == s.len() || s[at.1] == '/'
    &&& forall|j: int| at.0 <= j < at.1 ==> s[j] != '/'
    &&& !(at.0 > 0 && at.1 == at.0 + 1 && s[at.0] == '.')
}

proof fn lemma_spans_alone(s: Seq<char>, from: int)
    requires
        0 <= from <= s.len(),
    ensures
        forall|i: int| 0 <= i < spans(s, from).len() ==> stands_alone(s, from, #[trigger] spans(s, from)[i]),
    decreases s.len() - from,
{
    lemma_next_of(s, '/', from);
    let to = next_of(s, '/', from);
    let all = spans(s, from);
    if to < s.len() {
        lemma_spans_alone(s, to + 1);
        let rest = spans(s, to + 1);
        assert forall|i: int| 0 <= i < all.len() implies stands_alone(s, from, #[trigger] all[i]) by {
            if counts(s, from, to) {
                if i > 0 {
                    assert(all[i] == rest[i - 1]);
                    assert(stands_alone(s, to + 1, rest[i - 1]));
                }
            } else {
                assert(all[i] == rest[i]);
                assert(stands_alone(s, to + 1, rest[i]));
            }
        }
    }
}

proof fn lemma_next_taken(s: Seq<char>, e: int, from: int)
    requires
        0 <= from <= e < s.len(),
        s[e] == '/',
    ensures
        next_of(s.take(e), '/', from) == next_of(s, '/', from),
    decreases e - from,
{
    if from < e && s[from] != '/' {
        lemma_next_taken(s, e, from + 1);
    }
}

/// A path that is cut at one of its slashes has the components before it and those behind.
proof fn lemma_spans_cut(s: Seq<char>, e: int, from: int)
    requires
        0 <= from <= e < s.len(),
        s[e] == '/',
    ensures
        spans(s, from) == spans(s.take(e), from) + spans(s, e + 1),
    decreases e - from,
{
    let a = s.take(e);
    lemma_next_of(a, '/', from);
    lemma_next_taken(s, e, from);
    let to = next_of(a, '/', from);
    assert(counts(s, from, to) == counts(a, from, to)) by {
        if from < to {
            assert(s[from] == a[from]);
        }
    }
    if to < e {
        lemma_spans_cut(s, e, to + 1);
    }
    assert(spans(s, from) =~= spans(a, from) + spans(s, e + 1));
}

/// How many components stand before a cut: those that end before it.
proof fn lemma_cut_at(s: Seq<char>, e: int, n: int)
    requires
        0 <= e < s.len(),
        s[e] == '/',
        0 <= n <= spans(s, 0).len(),
        n > 0 ==> spans(s, 0)[n - 1].1 <= e,
        n < spans(s, 0).len() ==> e < spans(s, 0)[n].0,
    ensures
        spans(s.take(e), 0) == spans(s, 0).take(n),
        spans(s, e + 1) == spans(s, 0).skip(n),
{
    let at = spans(s, 0);
    let (x, y) = (spans(s.take(e), 0), spans(s, e + 1));
    lemma_spans_cut(s, e, 0);
    lemma_spans(s, 0);
    lemma_spans(s.take(e), 0);
    lemma_spans(s, e + 1);
    if x.len() < n {
        assert(at[n - 1] == y[n - 1 - x.len()]);
    }
    if x.len() > n {
        assert(at[n] == x[n]);
    }
    assert(x =~= at.take(n));
    assert(y =~= at.skip(n));
}

/// Components are read alike in a text that goes on behind them.
proof fn lemma_parts_taken(s: Seq<char>, a: Seq<char>, x: Seq<(int, int)>)
    requires
        a.len() <= s.len(),
        s.take(a.len() as int) == a,
        inside(x, a.len()),
    ensures
        x.map_values(|y: (int, int)| part_at(s, y)) == x.map_values(|y: (int, int)| part_at(a, y)),
{
    assert forall|i: int| 0 <= i < x.len() implies part_at(s, #[trigger] x[i]) == part_at(a, x[i]) by {
        assert(s.subrange(x[i].0, x[i].1) =~= a.subrange(x[i].0, x[i].1));
    }
    assert(x.map_values(|y: (int, int)| part_at(s, y)) =~= x.map_values(
        |y: (int, int)| part_at(a, y),
    ));
}

/// A parent has all components but the last.
pub proof fn lemma_parent_parts(s: Seq<char>)
    requires
        parent_of(s) is Some,
    ensures
        parts_of(parent_of(s)->Some_0) == parts_of(s).drop_last(),
{
    let at = spans(s, 0);
    let up = parent_of(s)->Some_0;
    lemma_spans(s, 0);
    lemma_spans_alone(s, 0);
    if at.len() == 1 {
        reveal_with_fuel(spans, 3);
        reveal_with_fuel(next_of, 3);
        assert(parts_of(up) =~= parts_of(s).drop_last());
    } else {
        let n = at.len() - 1;
        let e = at[n - 1].1;
        assert(e < at[n].0 < at[n].1 <= s.len());
        assert(stands_alone(s, 0, at[n - 1]));
        lemma_cut_at(s, e, n);
        let x = spans(up, 0);
        assert(x == at.take(n));
        lemma_spans(up, 0);
        lemma_parts_taken(s, up, x);
        assert(absolute(up) == absolute(s)) by {
            assert(up[0] == s[0]);
        }
        assert(parts_of(up) =~= parts_of(s).drop_last());
    }
}

/// The components of a path are the root, dots and proper names.
pub proof fn lemma_part_names(s: Seq<char>, i: int)
    requires
        0 <= i < parts_of(s).len(),
    ensures
        parts_of(s)[i] is Root <==> i == 0 && absolute(s),
        match parts_of(s)[i] {
            PartV::Name(t) => proper_name(t),
            _ => true,
        },
{
    let at = spans(s, 0);
    lemma_spans_alone(s, 0);
    let lead: int = if absolute(s) {
        1
    } else {
        0
    };
    if i >= lead {
        let x = at[i - lead];
        assert(stands_alone(s, 0, x));
        assert(parts_of(s)[i] == part_at(s, x));
    }
}

/// A name that is written below a path is one more component.
pub proof fn lemma_name_below(base: Seq<char>, name: Seq<char>)
    requires
        proper_name(name),
    ensures
        parts_of(joined(base, name)) == parts_of(base).push(PartV::Name(name)),
{
    let s = joined(base, name);
    assert(name[0] != '/');
    if base.len() == 0 {
        lemma_one_name(name);
        lemma_next_of(base, '/', 0);
        assert(parts_of(base) =~= Seq::<PartV>::empty());
        assert(parts_of(s) =~= parts_of(base).push(PartV::Name(name)));
    } else {
        let e: int = if base.last() == '/' {
            base.len() - 1
        } else {
            base.len() as int
        };
        assert(s[e] == '/');
        lemma_spans_cut(s, e, 0);
        if base.last() == '/' {
            lemma_spans_cut(base, e, 0);
            assert(s.take(e) =~= base.take(e));
            assert(spans(base, e + 1) =~= Seq::<(int, int)>::empty()) by {
                lemma_next_of(base, '/', e + 1);
            }
        } else {
            assert(s.take(e) =~= base);
        }
        let x = spans(base, 0);
        let last = (e + 1, s.len() as int);
        assert(s.subrange(e + 1, s.len() as int) =~= name);
        assert forall|j: int| e + 1 <= j < s.len() implies s[j] != '/' by {
            assert(s[j] == name[j - e - 1]);
        }
        lemma_next_of(s, '/', e + 1);
        assert(next_of(s, '/', e + 1) == s.len());
        assert(counts(s, e + 1, s.len() as int)) by {
            if s.len() == e + 2 && s[e + 1] == '.' {
                assert(name =~= seq!['.']);
            }
        }
        assert(spans(s, e + 1) =~= seq![last]);
        assert(spans(s, 0) =~= x.push(last));
        lemma_spans(base, 0);
        assert(s.take(base.len() as int) =~= base);
        lemma_parts_taken(s, base, x);
        assert(absolute(s) == absolute(base)) by {
            assert(s[0] == base[0]);
        }
        assert(part_at(s, last) == PartV::Name(name));
        assert(x.push(last).map_values(|y: (int, int)| part_at(s, y)) =~= x.map_values(
            |y: (int, int)| part_at(s, y),
        ).push(PartV::Name(name)));
        assert(parts_of(s) =~= parts_of(base).push(PartV::Name(name)));
    }
}

/// What is left of a path below another has the components that are left.
pub proof fn lemma_remainder_parts(s: Seq<char>, prefix: Seq<char>)
    requires
        remainder(s, prefix) is Some,
    ensures
        parts_of(remainder(s, prefix)->Some_0) == parts_of(s).skip(parts_of(prefix).len() as int),
{
    let below = remainder(s, prefix)->Some_0;
    let at = spans(s, 0);
    let k = spans(prefix, 0).len() as int;
    let n = parts_of(prefix).len() as int;
    if n == 0 {
        assert(parts_of(s).skip(0) =~= parts_of(s));
    } else {
        assert(absolute(s) == absolute(prefix)) by {
            assert(parts_of(s).take(n)[0] == parts_of(s)[0]);
            lemma_part_names(s, 0);
            lemma_part_names(prefix, 0);
        }
        if k < at.len() {
            let b = at[k].0;
            let e = at.last().1;
            lemma_spans(s, 0);
            lemma_spans_alone(s, 0);
            assert(stands_alone(s, 0, at[k]));
            assert(stands_alone(s, 0, at.last()));
            if k > 0 {
                assert(at[k - 1].1 < b);
            }
            assert(b < e) by {
                if k < at.len() - 1 {
                    assert(at[k].1 < at.last().0);
                }
            }
            assert(b > 0);
            let t = s.take(e);
            assert(spans(t, 0) == at) by {
                if e < s.len() {
                    lemma_cut_at(s, e, at.len() as int);
                    assert(at.take(at.len() as int) =~= at);
                } else {
                    assert(t =~= s);
                }
            }
            assert(t[b - 1] == '/');
            lemma_cut_at(t, b - 1, k);
            let a = t.take(b - 1);
            assert(t =~= a.push('/') + below);
            lemma_next_of(t, '/', b);
            lemma_next_of(below, '/', 0);
            lemma_next_shifted(a, below, 0);
            assert(begins_named(below)) by {
                if next_of(below, '/', 0) == 1 && below[0] == '.' {
                    assert(at[k].1 == b + 1);
                    assert(s[b] == below[0]);
                }
            }
            lemma_spans_shifted(a, below, 0);
            let y = spans(below, 0);
            assert(at.skip(k) == shifted(y, b as nat));
            lemma_spans(below, 0);
            assert forall|i: int| 0 <= i < y.len() implies part_at(below, #[trigger] y[i]) == part_at(
                s,
                at[k + i],
            ) by {
                assert(at.skip(k)[i] == (y[i].0 + b, y[i].1 + b));
                assert(below.subrange(y[i].0, y[i].1) =~= s.subrange(at[k + i].0, at[k + i].1));
            }
            assert(below[0] == s[b]);
            assert(parts_of(below) =~= parts_of(s).skip(n));
        } else {
            lemma_next_of(below, '/', 0);
            assert(parts_of(below) =~= Seq::<PartV>::empty());
            assert(parts_of(s).skip(n) =~= Seq::<PartV>::empty());
        }
    }
}

/// Names that steps up leave are proper ones.
proof fn lemma_lexical_names(p: Seq<PartV>, above: Seq<Seq<char>>)
    requires
        forall|i: int|
            0 <= i < p.len() ==> match #[trigger] p[i] {
                PartV::Name(t) => proper_name(t),
                _ => true,
            },
        forall|i: int| 0 <= i < above.len() ==> proper_name(#[trigger] above[i]),
        lexical_names(p, above) is Some,
    ensures
        forall|i: int|
            0 <= i < lexical_names(p, above)->Some_0.len() ==> proper_name(
                #[trigger] lexical_names(p, above)->Some_0[i],
            ),
    decreases p.len(),
{
    if p.len() > 0 {
        let rest = p.drop_first();
        assert forall|i: int| 0 <= i < rest.len() implies match #[trigger] rest[i] {
            PartV::Name(t) => proper_name(t),
            _ => true,
        } by {
            assert(rest[i] == p[i + 1]);
        }
        match p[0] {
            PartV::Root => {
                lemma_lexical_names(rest, Seq::empty());
            },
            PartV::Here => {
                lemma_lexical_names(rest, above);
            },
            PartV::Up => {
                lemma_lexical_names(rest, above.drop_last());
            },
            PartV::Name(t) => {
                assert(p[0] == PartV::Name(t));
                lemma_lexical_names(rest, above.push(t));
            },
        }
    }
}

proof fn lemma_absolute_parts(names: Seq<Seq<char>>)
    requires
        forall|i: int| 0 <= i < names.len() ==> proper_name(#[trigger] names[i]),
    ensures
        parts_of(absolute_text(names)) == seq![PartV::Root] + names.map_values(
            |t: Seq<char>| PartV::Name(t),
        ),
    decreases names.len(),
{
    let all = names.map_values(|t: Seq<char>| PartV::Name(t));
    if names.len() == 0 {
        reveal_with_fuel(spans, 3);
        reveal_with_fuel(next_of, 3);
        assert(parts_of(absolute_text(names)) =~= seq![PartV::Root] + all);
    } else {
        let up = names.drop_last();
        assert forall|i: int| 0 <= i < up.len() implies proper_name(#[trigger] up[i]) by {
            assert(up[i] == names[i]);
        }
        lemma_absolute_parts(up);
        assert(names.last() == names[names.len() - 1]);
        lemma_name_below(absolute_text(up), names.last());
        assert(seq![PartV::Root] + all =~= (seq![PartV::Root] + up.map_values(
            |t: Seq<char>| PartV::Name(t),
        )).push(PartV::Name(names.last())));
    }
}

/// A lexical normal form leads from the root through names alone.
pub proof fn law_normal_forms_are_plain(s: Seq<char>)
    requires
        lexical(s) is Some,
    ensures
        absolute(lexical(s)->Some_0),
        forall|i: int|
            0 < i < parts_of(lexical(s)->Some_0).len() ==> (#[trigger] parts_of(
                lexical(s)->Some_0,
            )[i]) is Name,
{
    let names = lexical_names(parts_of(s), Seq::empty())->Some_0;
    assert forall|i: int| 0 <= i < parts_of(s).len() implies match #[trigger] parts_of(s)[i] {
        PartV::Name(t) => proper_name(t),
        _ => true,
    } by {
        lemma_part_names(s, i);
    }
    lemma_lexical_names(parts_of(s), Seq::empty());
    lemma_absolute_parts(names);
    lemma_part_names(absolute_text(names), 0);
}

} // verus!
