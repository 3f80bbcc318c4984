//! Paths as text, with `/` between their components.
//!
//! A path is made up of components: the root directory where it begins with
//! `/`, a leading `.`, and then the pieces between separators. Repeated and
//! trailing separators make no component, nor does a `.` after the beginning.
//! Two paths with the same components name the same place; the order of paths
//! is the order of their components.
use vstd::prelude::*;

use crate::ordered;
use crate::ordered::OrderedKey;
use crate::ordered::OrderedMap;
use crate::text;

verus! {

/// What one component of a path is.
pub enum Part {
    Root,
    Current,
    Parent,
    Normal(Seq<char>),
}

/// One component of a path.
pub enum Component {
    RootDir,
    CurDir,
    ParentDir,
    Normal(String),
}

impl Component {
    pub open spec fn part(&self) -> Part {
        match self {
            Component::RootDir => Part::Root,
            Component::CurDir => Part::Current,
            Component::ParentDir => Part::Parent,
            Component::Normal(name) => Part::Normal(name@),
        }
    }
}

/// The path begins at the root directory.
pub open spec fn absolute(s: Seq<char>) -> bool {
    s.len() > 0 && s[0] == '/'
}

/// The path begins with a `.` component.
pub open spec fn dotted(s: Seq<char>) -> bool {
    s.len() > 0 && s[0] == '.' && (s.len() == 1 || s[1] == '/')
}

/// The component before the first named one: the root directory or `.`.
pub open spec fn lead(s: Seq<char>) -> Seq<Part> {
    if absolute(s) {
        seq![Part::Root]
    } else if dotted(s) {
        seq![Part::Current]
    } else {
        Seq::<Part>::empty()
    }
}

/// The piece from `a` up to `b` is empty or a single `.`.
pub open spec fn blank(s: Seq<char>, a: int, b: int) -> bool {
    a == b || (b == a + 1 && s[a] == '.')
}

/// Where the named components at or after `from` begin and end.
pub open spec fn spans(s: Seq<char>, from: int) -> Seq<(int, int)>
    decreases s.len() + 1 - from,
    when 0 <= from
{
    if from >= s.len() {
        Seq::<(int, int)>::empty()
    } else {
        proof {
            text::lemma_position_of(s, '/', from);
        }
        let to = text::position_of(s, '/', from);
        let rest = spans(s, to + 1);
        if blank(s, from, to) {
            rest
        } else {
            seq![(from, to)] + rest
        }
    }
}

/// What the component in the given span is.
pub open spec fn part_at(s: Seq<char>, span: (int, int)) -> Part {
    if s.subrange(span.0, span.1) == seq!['.', '.'] {
        Part::Parent
    } else {
        Part::Normal(s.subrange(span.0, span.1))
    }
}

/// The named components at or after `from`.
pub open spec fn body(s: Seq<char>, from: int) -> Seq<Part> {
    spans(s, from).map_values(|span: (int, int)| part_at(s, span))
}

/// The components of a path.
pub open spec fn parts(s: Seq<char>) -> Seq<Part> {
    lead(s) + body(s, 0)
}

/// The components of `base` are the first components of `s`.
pub open spec fn under(s: Seq<char>, base: Seq<char>) -> bool {
    parts(base).is_prefix_of(parts(s))
}

/// The text of `s` behind its first `n` components, without separators at
/// either end.
pub open spec fn remainder(s: Seq<char>, n: int) -> Seq<char> {
    let all = spans(s, 0);
    let first = n - lead(s).len();
    if n == 0 {
        s.take(
            if all.len() > 0 {
                all.last().1
            } else {
                lead(s).len() as int
            },
        )
    } else if first < all.len() {
        s.subrange(all[first].0, all.last().1)
    } else {
        Seq::<char>::empty()
    }
}

/// The path of `s` relative to `base`, where `s` is under `base`.
pub open spec fn relative(s: Seq<char>, base: Seq<char>) -> Option<Seq<char>> {
    if under(s, base) {
        Some(remainder(s, parts(base).len() as int))
    } else {
        None
    }
}

/// `rel` seen from `base`: `rel` itself where it is absolute.
pub open spec fn joined(base: Seq<char>, rel: Seq<char>) -> Seq<char> {
    if absolute(rel) {
        rel
    } else if base.len() == 0 || base.last() == '/' {
        base + rel
    } else {
        base + seq!['/'] + rel
    }
}

/// The name of the last component, unless that is no named one.
pub open spec fn last_name(s: Seq<char>) -> Option<Seq<char>> {
    let all = parts(s);
    if all.len() > 0 {
        match all.last() {
            Part::Normal(name) => Some(name),
            _ => None,
        }
    } else {
        None
    }
}

/// The path without its last component. The root directory and the empty path
/// have none.
pub open spec fn without_last(s: Seq<char>) -> Option<Seq<char>> {
    let all = spans(s, 0);
    let head = lead(s).len() as int;
    if all.len() > 1 {
        Some(s.take(all[all.len() - 2].1))
    } else if all.len() == 1 {
        Some(s.take(head))
    } else if dotted(s) {
        Some(Seq::<char>::empty())
    } else {
        None
    }
}

/// Every span lies within the text, is not blank, holds no separator, and
/// ends before the next one begins.
pub proof fn lemma_spans(s: Seq<char>, from: int)
    requires
        0 <= from,
    ensures
        forall|i: int|
            0 <= i < spans(s, from).len() ==> {
                let span = #[trigger] spans(s, from)[i];
                from <= span.0 < span.1 <= s.len() && !blank(s, span.0, span.1)
            },
        forall|i: int, j: int|
            0 <= i < j < spans(s, from).len() ==> #[trigger] spans(s, from)[i].1
                < #[trigger] spans(s, from)[j].0,
        forall|i: int, k: int|
            0 <= i < spans(s, from).len() && (#[trigger] spans(s, from)[i]).0 <= k < spans(
                s,
                from,
            )[i].1 ==> #[trigger] s[k] != '/',
    decreases s.len() + 1 - from,
{
    if from < s.len() {
        text::lemma_position_of(s, '/', from);
        let to = text::position_of(s, '/', from);
        lemma_spans(s, to + 1);
        let rest = spans(s, to + 1);
        if !blank(s, from, to) {
            let all = spans(s, from);
            assert(all =~= seq![(from, to)] + rest);
            assert forall|i: int| 0 <= i < all.len() implies {
                let span = #[trigger] all[i];
                from <= span.0 < span.1 <= s.len() && !blank(s, span.0, span.1)
            } by {
                if i > 0 {
                    assert(all[i] == rest[i - 1]);
                }
            }
            assert forall|i: int, j: int| 0 <= i < j < all.len() implies #[trigger] all[i].1
                < #[trigger] all[j].0 by {
                assert(all[j] == rest[j - 1]);
                if i > 0 {
                    assert(all[i] == rest[i - 1]);
                }
            }
            assert forall|i: int, k: int|
                0 <= i < all.len() && (#[trigger] all[i]).0 <= k < all[i].1 implies #[trigger] s[k]
                != '/' by {
                if i > 0 {
                    assert(all[i] == rest[i - 1]);
                }
            }
        }
    }
}

/// Where the named components of `chars` begin and end.
fn spans_of(chars: &Vec<char>) -> (r: Vec<(usize, usize)>)
    ensures
        r@.len() == spans(chars@, 0).len(),
        forall|i: int|
            0 <= i < r@.len() ==> (#[trigger] r@[i]).0 == spans(chars@, 0)[i].0 && r@[i].1 == spans(
                chars@,
                0,
            )[i].1,
{
    let ghost s = chars@;
    let ghost all = spans(s, 0);
    let mut r: Vec<(usize, usize)> = Vec::new();
    let mut from: usize = 0;
    let ghost mut seen = Seq::<(int, int)>::empty();
    proof {
        assert(seen + spans(s, 0) =~= all);
    }
    while from < chars.len()
        invariant
            s == chars@,
            from <= s.len(),
            all == seen + spans(s, from as int),
            r@.len() == seen.len(),
            forall|i: int|
                0 <= i < r@.len() ==> (#[trigger] r@[i]).0 == seen[i].0 && r@[i].1 == seen[i].1,
        decreases s.len() - from,
    {
        let to: usize = text::find_char(chars, '/', from);
        let is_blank: bool = to == from || (to == from + 1 && chars[from] == '.');
        let ghost next = to + 1;
        if !is_blank {
            r.push((from, to));
            proof {
                let rest = spans(s, next);
                assert(spans(s, from as int) =~= seq![(from as int, to as int)] + rest);
                let grown = seen.push((from as int, to as int));
                assert(grown + rest =~= seen + (seq![(from as int, to as int)] + rest));
                seen = grown;
            }
        }
        if to < chars.len() {
            from = to + 1;
        } else {
            proof {
                assert(spans(s, next) =~= spans(s, to as int));
            }
            from = to;
        }
    }
    proof {
        assert(seen =~= all);
    }
    r
}

/// The components of `path`.
pub fn components(path: &str) -> (r: Vec<Component>)
    ensures
        r@.map_values(|c: Component| c.part()) == parts(path@),
{
    let chars = text::chars_of(path);
    let found = spans_of(&chars);
    let ghost all = spans(path@, 0);
    let ghost f = |c: Component| c.part();
    let mut r: Vec<Component> = Vec::new();
    if chars.len() > 0 && chars[0] == '/' {
        r.push(Component::RootDir);
    } else if chars.len() > 0 && chars[0] == '.' && (chars.len() == 1 || chars[1] == '/') {
        r.push(Component::CurDir);
    }
    proof {
        lemma_spans(path@, 0);
        assert(r@.map_values(f) =~= lead(path@));
        assert(body(path@, 0).take(0) =~= Seq::<Part>::empty());
    }
    let mut i: usize = 0;
    while i < found.len()
        invariant
            chars@ == path@,
            all == spans(path@, 0),
            found@.len() == all.len(),
            forall|k: int|
                0 <= k < found@.len() ==> (#[trigger] found@[k]).0 == all[k].0 && found@[k].1
                    == all[k].1,
            forall|k: int|
                0 <= k < all.len() ==> 0 <= (#[trigger] all[k]).0 < all[k].1 <= path@.len(),
            i <= found@.len(),
            f == (|c: Component| c.part()),
            r@.map_values(f) == lead(path@) + body(path@, 0).take(i as int),
        decreases found@.len() - i,
    {
        let a: usize = found[i].0;
        let b: usize = found[i].1;
        let ghost before = r@.map_values(f);
        let ghost piece = path@.subrange(a as int, b as int);
        proof {
            assert(all[i as int] == (a as int, b as int));
        }
        if b - a == 2 && chars[a] == '.' && chars[a + 1] == '.' {
            proof {
                assert(piece =~= seq!['.', '.']);
            }
            r.push(Component::ParentDir);
        } else {
            proof {
                if piece == seq!['.', '.'] {
                    assert(piece.len() == 2 && piece[0] == '.' && piece[1] == '.');
                    assert(piece[0] == path@[a as int] && piece[1] == path@[a + 1]);
                }
            }
            r.push(Component::Normal(text::slice_text(path, a, b)));
        }
        proof {
            let part = part_at(path@, all[i as int]);
            assert(r@.last().part() == part);
            assert(r@.map_values(f) =~= before.push(part));
            assert(body(path@, 0).take(i + 1) =~= body(path@, 0).take(i as int).push(part));
            assert(r@.map_values(f) =~= lead(path@) + body(path@, 0).take(i + 1));
        }
        i += 1;
    }
    proof {
        assert(body(path@, 0).take(i as int) =~= body(path@, 0));
    }
    r
}

/// Whether two components are the same.
fn same_component(a: &Component, b: &Component) -> (r: bool)
    ensures
        r == (a.part() == b.part()),
{
    match (a, b) {
        (Component::RootDir, Component::RootDir) => true,
        (Component::CurDir, Component::CurDir) => true,
        (Component::ParentDir, Component::ParentDir) => true,
        (Component::Normal(x), Component::Normal(y)) => text::same_text(x.as_str(), y.as_str()),
        _ => false,
    }
}

/// Whether the path begins at the root directory.
pub fn is_absolute(path: &str) -> (r: bool)
    ensures
        r == absolute(path@),
{
    text::starts_with_char(path, '/')
}

/// The number of components of `path`.
pub fn depth(path: &str) -> (r: usize)
    ensures
        r == parts(path@).len(),
{
    components(path).len()
}

/// Whether `path` is `base` or lies under it.
pub fn is_under(path: &str, base: &str) -> (r: bool)
    ensures
        r == under(path@, base@),
{
    let xs = components(path);
    let ys = components(base);
    let ghost f = |c: Component| c.part();
    proof {
        assert(xs@.map_values(f) =~= parts(path@));
        assert(ys@.map_values(f) =~= parts(base@));
    }
    if ys.len() > xs.len() {
        return false;
    }
    let mut i: usize = 0;
    while i < ys.len()
        invariant
            f == (|c: Component| c.part()),
            xs@.map_values(f) == parts(path@),
            ys@.map_values(f) == parts(base@),
            i <= ys@.len() <= xs@.len(),
            forall|k: int| 0 <= k < i ==> parts(path@)[k] == #[trigger] parts(base@)[k],
        decreases ys@.len() - i,
    {
        proof {
            assert(xs@.map_values(f)[i as int] == xs@[i as int].part());
            assert(ys@.map_values(f)[i as int] == ys@[i as int].part());
        }
        if !same_component(&xs[i], &ys[i]) {
            proof {
                if under(path@, base@) {
                    assert(parts(path@).subrange(0, parts(base@).len() as int)[i as int]
                        == parts(path@)[i as int]);
                }
            }
            return false;
        }
        i += 1;
    }
    proof {
        assert(parts(base@) =~= parts(path@).subrange(0, parts(base@).len() as int));
    }
    true
}

/// Whether two paths have the same components.
pub fn same_path(a: &str, b: &str) -> (r: bool)
    ensures
        r == (parts(a@) == parts(b@)),
{
    let r = is_under(a, b) && depth(a) == depth(b);
    proof {
        if parts(a@) == parts(b@) {
            assert(parts(b@) =~= parts(a@).subrange(0, parts(b@).len() as int));
        }
        if r {
            assert(parts(a@) =~= parts(a@).subrange(0, parts(a@).len() as int));
        }
    }
    r
}

/// The path of `path` relative to `base`, or `None` where it does not lie
/// under `base`.
pub fn strip_prefix(path: &str, base: &str) -> (r: Option<String>)
    ensures
        match r {
            Some(rel) => relative(path@, base@) == Some(rel@),
            None => relative(path@, base@) is None,
        },
{
    if !is_under(path, base) {
        return None;
    }
    let n: usize = depth(base);
    let chars = text::chars_of(path);
    let found = spans_of(&chars);
    let ghost all = spans(path@, 0);
    let head: usize = if chars.len() > 0 && (chars[0] == '/' || (chars[0] == '.' && (chars.len()
        == 1 || chars[1] == '/'))) {
        1
    } else {
        0
    };
    proof {
        lemma_spans(path@, 0);
        assert(head == lead(path@).len());
        assert(parts(path@).len() == head + all.len());
    }
    if n == 0 {
        let end: usize = if found.len() > 0 {
            found[found.len() - 1].1
        } else {
            head
        };
        proof {
            assert(path@.take(end as int) =~= path@.subrange(0, end as int));
        }
        return Some(text::slice_text(path, 0, end));
    }
    let first: usize = n - head;
    if first < found.len() {
        let from: usize = found[first].0;
        let end: usize = found[found.len() - 1].1;
        proof {
            if first < all.len() - 1 {
                assert(all[first as int].1 < all[all.len() - 1].0);
            }
        }
        Some(text::slice_text(path, from, end))
    } else {
        Some(String::new())
    }
}

/// `rel` seen from `base`.
pub fn join(base: &str, rel: &str) -> (r: String)
    ensures
        r@ == joined(base@, rel@),
{
    if is_absolute(rel) {
        return rel.to_owned();
    }
    let chars = text::chars_of(base);
    if chars.len() == 0 || chars[chars.len() - 1] == '/' {
        text::join_text(base, rel)
    } else {
        proof {
            reveal_strlit("/");
            assert("/"@ =~= seq!['/']);
        }
        let start = text::join_text(base, "/");
        text::join_text(start.as_str(), rel)
    }
}

/// The name of the last component of `path`, unless that is no named one.
pub fn file_name(path: &str) -> (r: Option<String>)
    ensures
        match r {
            Some(name) => last_name(path@) == Some(name@),
            None => last_name(path@) is None,
        },
{
    let mut all = components(path);
    let ghost f = |c: Component| c.part();
    proof {
        assert(all@.map_values(f) =~= parts(path@));
        if all@.len() > 0 {
            assert(all@.map_values(f).last() == all@.last().part());
        }
    }
    match all.pop() {
        Some(Component::Normal(name)) => Some(name),
        _ => None,
    }
}

/// `path` without its last component.
pub fn parent(path: &str) -> (r: Option<String>)
    ensures
        match r {
            Some(up) => without_last(path@) == Some(up@),
            None => without_last(path@) is None,
        },
{
    let chars = text::chars_of(path);
    let found = spans_of(&chars);
    proof {
        lemma_spans(path@, 0);
    }
    let is_dotted: bool = chars.len() > 0 && chars[0] == '.' && (chars.len() == 1 || chars[1]
        == '/');
    let head: usize = if is_dotted || (chars.len() > 0 && chars[0] == '/') {
        1
    } else {
        0
    };
    if found.len() > 1 {
        let end: usize = found[found.len() - 2].1;
        proof {
            assert(path@.take(end as int) =~= path@.subrange(0, end as int));
        }
        Some(text::slice_text(path, 0, end))
    } else if found.len() == 1 {
        proof {
            assert(path@.take(head as int) =~= path@.subrange(0, head as int));
        }
        Some(text::slice_text(path, 0, head))
    } else if is_dotted {
        Some(String::new())
    } else {
        None
    }
}

/// One step of the definition of `body`.
proof fn lemma_body_step(s: Seq<char>, from: int)
    requires
        0 <= from < s.len(),
    ensures
        ({
            let to = text::position_of(s, '/', from);
            &&& from <= to <= s.len()
            &&& body(s, from) == if blank(s, from, to) {
                body(s, to + 1)
            } else {
                seq![part_at(s, (from, to))] + body(s, to + 1)
            }
        }),
{
    text::lemma_position_of(s, '/', from);
    let to = text::position_of(s, '/', from);
    if !blank(s, from, to) {
        assert(body(s, from) =~= seq![part_at(s, (from, to))] + body(s, to + 1));
    }
}

/// The end of a piece in a text that goes on behind a separator.
proof fn lemma_position_before(a: Seq<char>, b: Seq<char>, from: int)
    requires
        0 <= from <= a.len(),
    ensures
        text::position_of(a + seq!['/'] + b, '/', from) == text::position_of(a, '/', from),
    decreases a.len() - from,
{
    let s = a + seq!['/'] + b;
    if from < a.len() {
        assert(s[from] == a[from]);
        if a[from] != '/' {
            lemma_position_before(a, b, from + 1);
        }
    } else {
        assert(s[from] == '/');
    }
}

/// The end of a piece does not depend on what stands before it.
proof fn lemma_position_shift(p: Seq<char>, b: Seq<char>, from: int)
    requires
        0 <= from <= b.len(),
    ensures
        text::position_of(p + b, '/', p.len() + from) == p.len() + text::position_of(b, '/', from),
    decreases b.len() - from,
{
    if from < b.len() {
        assert((p + b)[p.len() + from] == b[from]);
        if b[from] != '/' {
            lemma_position_shift(p, b, from + 1);
        }
    }
}

/// The components of a text do not depend on what stands before it.
proof fn lemma_body_shift(p: Seq<char>, b: Seq<char>, from: int)
    requires
        0 <= from,
    ensures
        body(p + b, p.len() + from) == body(b, from),
    decreases b.len() + 1 - from,
{
    let s = p + b;
    if from < b.len() {
        lemma_body_step(s, p.len() + from);
        lemma_body_step(b, from);
        lemma_position_shift(p, b, from);
        let to = text::position_of(b, '/', from);
        lemma_body_shift(p, b, to + 1);
        assert(s[p.len() + from] == b[from]);
        assert(s.subrange(p.len() + from, p.len() + to) =~= b.subrange(from, to));
    } else {
        assert(body(s, p.len() + from) =~= body(b, from));
    }
}

/// The components of two texts with a separator between them are those of the
/// first and those of the second.
proof fn lemma_body_concat(a: Seq<char>, b: Seq<char>, from: int)
    requires
        0 <= from <= a.len(),
    ensures
        body(a + seq!['/'] + b, from) == body(a, from) + body(b, 0),
    decreases a.len() + 1 - from,
{
    let s = a + seq!['/'] + b;
    let p = a + seq!['/'];
    lemma_body_shift(p, b, 0);
    lemma_body_step(s, from);
    lemma_position_before(a, b, from);
    if from < a.len() {
        lemma_body_step(a, from);
        let to = text::position_of(a, '/', from);
        assert(s[from] == a[from]);
        assert(s.subrange(from, to) =~= a.subrange(from, to));
        if to < a.len() {
            lemma_body_concat(a, b, to + 1);
        } else {
            assert(body(a, to + 1) =~= Seq::<Part>::empty());
            assert(body(s, to + 1) == body(b, 0));
        }
        assert(body(s, from) =~= body(a, from) + body(b, 0));
    } else {
        assert(body(a, from) =~= Seq::<Part>::empty());
        assert(body(s, from) =~= body(a, from) + body(b, 0));
    }
}

/// A relative path seen from `base` has the components of `base`, and then its
/// own named ones.
pub proof fn lemma_joined(base: Seq<char>, rel: Seq<char>)
    requires
        !absolute(rel),
        base.len() > 0,
    ensures
        parts(joined(base, rel)) == parts(base) + body(rel, 0),
{
    let s = joined(base, rel);
    assert(s[0] == base[0]);
    if base.last() == '/' {
        let a = base.drop_last();
        assert(base =~= a + seq!['/'] + Seq::<char>::empty());
        assert(s =~= a + seq!['/'] + rel);
        lemma_body_concat(a, rel, 0);
        lemma_body_concat(a, Seq::<char>::empty(), 0);
        assert(body(Seq::<char>::empty(), 0) =~= Seq::<Part>::empty());
        assert(body(base, 0) =~= body(a, 0));
    } else {
        lemma_body_concat(base, rel, 0);
    }
    if base.len() > 1 {
        assert(s[1] == base[1]);
    }
    assert(lead(s) == lead(base));
    assert(parts(s) =~= parts(base) + body(rel, 0));
}

/// The end of a piece is the same in a text that is cut off behind it.
proof fn lemma_position_cut(s: Seq<char>, y: int, from: int)
    requires
        0 <= from <= y <= s.len(),
        text::position_of(s, '/', from) <= y,
    ensures
        text::position_of(s.take(y), '/', from) == text::position_of(s, '/', from),
    decreases s.len() - from,
{
    text::lemma_position_of(s, '/', from);
    if from < y && s[from] != '/' {
        lemma_position_cut(s, y, from + 1);
    }
}

/// Cutting a text off behind its last component leaves the components.
proof fn lemma_cut(s: Seq<char>, from: int)
    requires
        0 <= from,
        spans(s, from).len() > 0,
    ensures
        from < spans(s, from).last().1 <= s.len(),
        spans(s.take(spans(s, from).last().1), from) == spans(s, from),
    decreases s.len() + 1 - from,
{
    lemma_spans(s, from);
    let y = spans(s, from).last().1;
    let t = s.take(y);
    text::lemma_position_of(s, '/', from);
    let to = text::position_of(s, '/', from);
    let rest = spans(s, to + 1);
    if blank(s, from, to) {
        lemma_cut(s, to + 1);
        lemma_position_cut(s, y, from);
    } else if rest.len() > 0 {
        assert(spans(s, from).last() == rest.last());
        lemma_cut(s, to + 1);
        lemma_position_cut(s, y, from);
        assert(spans(t, from) =~= spans(s, from));
    } else {
        assert(y == to);
        lemma_position_cut(s, y, from);
        assert(spans(t, to + 1) =~= rest);
        assert(spans(t, from) =~= spans(s, from));
    }
}

/// Beginning at a component leaves out the components before it.
proof fn lemma_skip(s: Seq<char>, from: int, k: int)
    requires
        0 <= from,
        0 <= k < spans(s, from).len(),
    ensures
        spans(s, spans(s, from)[k].0) == spans(s, from).skip(k),
    decreases s.len() + 1 - from,
{
    text::lemma_position_of(s, '/', from);
    let to = text::position_of(s, '/', from);
    let rest = spans(s, to + 1);
    if blank(s, from, to) {
        lemma_skip(s, to + 1, k);
    } else if k == 0 {
        assert(spans(s, from).skip(0) =~= spans(s, from));
    } else {
        assert(spans(s, from)[k] == rest[k - 1]);
        lemma_skip(s, to + 1, k - 1);
        assert(spans(s, from).skip(k) =~= rest.skip(k - 1));
    }
}

/// A path without components is empty.
proof fn lemma_no_parts(s: Seq<char>)
    requires
        parts(s).len() == 0,
    ensures
        s.len() == 0,
{
    if s.len() > 0 {
        assert(lead(s).len() == 0);
        lemma_body_step(s, 0);
        let to = text::position_of(s, '/', 0);
        text::lemma_position_of(s, '/', 0);
        if blank(s, 0, to) {
            assert(to == 1);
            assert(dotted(s));
        }
    }
}

/// The text behind the first `first` named components has the other ones.
proof fn lemma_tail(s: Seq<char>, first: int)
    requires
        0 <= first < spans(s, 0).len(),
    ensures
        ({
            let rel = s.subrange(spans(s, 0)[first].0, spans(s, 0).last().1);
            body(rel, 0) == body(s, 0).skip(first) && !absolute(rel)
        }),
{
    lemma_spans(s, 0);
    let all = spans(s, 0);
    let x = all[first].0;
    let y = all.last().1;
    if first < all.len() - 1 {
        assert(all[first].1 < all[all.len() - 1].0);
    }
    let t = s.take(y);
    let rel = s.subrange(x, y);
    lemma_skip(s, 0, first);
    assert(spans(s, x).last() == all.last());
    lemma_cut(s, x);
    assert(spans(t, x) == all.skip(first));
    assert(t =~= s.take(x) + rel);
    lemma_body_shift(s.take(x), rel, 0);
    assert(body(t, x) == body(rel, 0));
    let f = |span: (int, int)| part_at(t, span);
    let g = |span: (int, int)| part_at(s, span);
    assert forall|i: int| 0 <= i < all.skip(first).len() implies #[trigger] all.skip(
        first,
    ).map_values(f)[i] == all.map_values(g).skip(first)[i] by {
        let span = all[first + i];
        if first + i < all.len() - 1 {
            assert(span.1 < all[all.len() - 1].0);
        }
        assert(t.subrange(span.0, span.1) =~= s.subrange(span.0, span.1));
    }
    assert(body(t, x) =~= body(s, 0).skip(first));
    assert(rel[0] == s[x]);
}

/// A path relative to `base`, seen from `base`, has the components of the
/// path.
pub proof fn law_relative_joined(s: Seq<char>, base: Seq<char>)
    requires
        relative(s, base) is Some,
    ensures
        parts(joined(base, relative(s, base)->0)) == parts(s),
{
    let n = parts(base).len() as int;
    let rel = relative(s, base)->0;
    let all = spans(s, 0);
    lemma_spans(s, 0);
    if n == 0 {
        lemma_no_parts(base);
        assert(joined(base, rel) =~= rel);
        if all.len() > 0 {
            lemma_cut(s, 0);
            assert(all[0].0 <= all.last().0);
            assert(absolute(s) ==> all[0].0 > 0) by {
                if absolute(s) && all[0].0 == 0 {
                    assert(s[all[0].0] == '/');
                }
            }
            assert(dotted(s) ==> all[0].0 > 1) by {
                if dotted(s) {
                    assert(all[0].0 == 0 ==> all[0].1 == 1) by {
                        if all[0].0 == 0 && all[0].1 > 1 {
                            assert(s[1] == '/');
                        }
                    }
                    if all[0].0 == 1 {
                        assert(s[1] != '/');
                    }
                }
            }
            if s[0] == '.' && !dotted(s) {
                lemma_body_step(s, 0);
                text::lemma_position_of(s, '/', 0);
                let to = text::position_of(s, '/', 0);
                assert(to > 1);
                assert(all[0] == (0int, to));
            }
            assert(lead(rel) =~= lead(s));
            assert(spans(rel, 0) == all);
            assert forall|i: int| 0 <= i < all.len() implies #[trigger] body(rel, 0)[i] == body(
                s,
                0,
            )[i] by {
                if i < all.len() - 1 {
                    assert(all[i].1 < all[all.len() - 1].0);
                }
                assert(rel.subrange(all[i].0, all[i].1) =~= s.subrange(all[i].0, all[i].1));
            }
            assert(body(rel, 0) =~= body(s, 0));
        } else {
            assert(body(s, 0) =~= Seq::<Part>::empty());
            if lead(s).len() > 0 {
                assert(rel =~= seq![s[0]]);
                lemma_body_step(rel, 0);
                text::lemma_position_of(rel, '/', 0);
                let to = text::position_of(rel, '/', 0);
                assert(body(rel, to + 1) =~= body(rel, 1)) by {
                    assert(spans(rel, 1) =~= Seq::<(int, int)>::empty());
                    assert(spans(rel, 2) =~= Seq::<(int, int)>::empty());
                }
                assert(spans(rel, 1) =~= Seq::<(int, int)>::empty());
                assert(body(rel, 0) =~= Seq::<Part>::empty());
                assert(lead(rel) =~= lead(s));
            } else {
                lemma_no_parts(s);
                assert(rel =~= s);
            }
        }
    } else {
        let head = lead(s).len() as int;
        let first = n - head;
        assert(parts(base)[0] == parts(s)[0]);
        assert(base.len() > 0) by {
            if base.len() == 0 {
                assert(spans(base, 0) =~= Seq::<(int, int)>::empty());
            }
        }
        if first < all.len() {
            lemma_tail(s, first);
        } else {
            assert(body(rel, 0) =~= Seq::<Part>::empty());
        }
        lemma_joined(base, rel);
        assert(parts(base) =~= parts(s).take(n));
        assert(parts(s) =~= parts(s).take(n) + body(s, 0).skip(first));
    }
}

/// Spans in a text that stands `by` places further on.
pub open spec fn moved(list: Seq<(int, int)>, by: int) -> Seq<(int, int)> {
    list.map_values(|span: (int, int)| (span.0 + by, span.1 + by))
}

/// The spans of a text move with it.
proof fn lemma_spans_shift(p: Seq<char>, b: Seq<char>, from: int)
    requires
        0 <= from,
    ensures
        spans(p + b, p.len() + from) == moved(spans(b, from), p.len() as int),
    decreases b.len() + 1 - from,
{
    let s = p + b;
    let n = p.len() as int;
    if from < b.len() {
        text::lemma_position_of(b, '/', from);
        lemma_position_shift(p, b, from);
        let to = text::position_of(b, '/', from);
        lemma_spans_shift(p, b, to + 1);
        assert(s[n + from] == b[from]);
        if !blank(b, from, to) {
            assert(spans(b, from) =~= seq![(from, to)] + spans(b, to + 1));
            assert(moved(spans(b, from), n) =~= seq![(n + from, n + to)] + moved(
                spans(b, to + 1),
                n,
            ));
        }
    } else {
        assert(spans(s, n + from) =~= moved(spans(b, from), n));
    }
}

/// The spans of two texts with a separator between them are those of the first
/// and then those of the second.
proof fn lemma_spans_concat(a: Seq<char>, b: Seq<char>, from: int)
    requires
        0 <= from <= a.len(),
    ensures
        spans(a + seq!['/'] + b, from) == spans(a, from) + moved(spans(b, 0), 1 + a.len() as int),
    decreases a.len() + 1 - from,
{
    let s = a + seq!['/'] + b;
    let p = a + seq!['/'];
    let rest = moved(spans(b, 0), 1 + a.len() as int);
    lemma_spans_shift(p, b, 0);
    assert(spans(s, 1 + a.len() as int) == rest);
    text::lemma_position_of(s, '/', from);
    text::lemma_position_of(a, '/', from);
    lemma_position_before(a, b, from);
    let to = text::position_of(a, '/', from);
    if from < a.len() {
        assert(s[from] == a[from]);
        if to < a.len() {
            lemma_spans_concat(a, b, to + 1);
        } else {
            assert(spans(a, to + 1) =~= Seq::<(int, int)>::empty());
            assert(spans(s, to + 1) =~= spans(a, to + 1) + rest);
        }
        assert(blank(s, from, to) == blank(a, from, to));
        assert(spans(s, from) =~= spans(a, from) + rest);
    } else {
        assert(to == from);
        assert(spans(a, from) =~= Seq::<(int, int)>::empty());
        assert(spans(s, from) =~= spans(a, from) + rest);
    }
}

/// The path begins and ends with a named component.
pub open spec fn trimmed(s: Seq<char>) -> bool {
    &&& spans(s, 0).len() > 0
    &&& spans(s, 0)[0].0 == 0
    &&& spans(s, 0).last().1 == s.len()
}

/// A path that begins and ends with a named component, seen from `base`, is the
/// path relative to `base` again.
pub proof fn law_joined_relative(base: Seq<char>, rel: Seq<char>)
    requires
        trimmed(rel),
    ensures
        relative(joined(base, rel), base) == Some(rel),
{
    let s = joined(base, rel);
    let own = spans(rel, 0);
    lemma_spans(rel, 0);
    assert(rel[own[0].0] != '/');
    let n = parts(base).len() as int;
    if base.len() == 0 {
        assert(s =~= rel);
        assert(spans(base, 0) =~= Seq::<(int, int)>::empty());
        assert(parts(base) =~= Seq::<Part>::empty());
        assert(parts(base) =~= parts(s).subrange(0, 0));
        assert(rel.take(rel.len() as int) =~= rel);
    } else {
        lemma_joined(base, rel);
        assert(parts(base) =~= parts(s).subrange(0, n));
        assert(n > 0) by {
            if n == 0 {
                lemma_no_parts(base);
            }
        }
        assert(s[0] == base[0]);
        if base.len() > 1 {
            assert(s[1] == base[1]);
        }
        assert(lead(s) == lead(base));
        let by = s.len() - rel.len();
        let all = spans(s, 0);
        assert(all == spans(base, 0) + moved(own, by)) by {
            if base.last() == '/' {
                let a = base.drop_last();
                assert(base =~= a + seq!['/'] + Seq::<char>::empty());
                assert(s =~= a + seq!['/'] + rel);
                lemma_spans_concat(a, rel, 0);
                lemma_spans_concat(a, Seq::<char>::empty(), 0);
                assert(moved(spans(Seq::<char>::empty(), 0), 1 + a.len() as int)
                    =~= Seq::<(int, int)>::empty());
                assert(spans(base, 0) =~= spans(a, 0));
            } else {
                lemma_spans_concat(base, rel, 0);
            }
        }
        let first = spans(base, 0).len() as int;
        assert(n == lead(s).len() + first);
        assert(all[first] == (own[0].0 + by, own[0].1 + by));
        assert(all.last() == (own.last().0 + by, own.last().1 + by));
        assert(s.subrange(by, s.len() as int) =~= rel);
    }
}

/// Names with `/` between them.
pub open spec fn slashed(names: Seq<Seq<char>>) -> Seq<char>
    decreases names.len(),
{
    if names.len() == 0 {
        Seq::<char>::empty()
    } else if names.len() == 1 {
        names[0]
    } else {
        slashed(names.drop_last()) + seq!['/'] + names.last()
    }
}

/// The name can be a component of a path: it is not empty, not `.`, and holds
/// no separator.
pub open spec fn is_name(name: Seq<char>) -> bool {
    name.len() > 0 && name != seq!['.'] && !name.contains('/')
}

/// A name is one component.
proof fn lemma_name(name: Seq<char>)
    requires
        is_name(name),
    ensures
        spans(name, 0) == seq![(0int, name.len() as int)],
{
    text::lemma_position_of(name, '/', 0);
    let to = text::position_of(name, '/', 0);
    if to < name.len() {
        assert(name.contains(name[to]));
    }
    assert(!blank(name, 0, to)) by {
        if blank(name, 0, to) {
            assert(name =~= seq!['.']);
        }
    }
    assert(spans(name, to + 1) =~= Seq::<(int, int)>::empty());
    assert(spans(name, 0) =~= seq![(0int, to)]);
}

/// Names with `/` between them are the components of the path that they make
/// up.
pub proof fn lemma_slashed(names: Seq<Seq<char>>)
    requires
        names.len() > 0,
        forall|i: int| 0 <= i < names.len() ==> is_name(#[trigger] names[i]),
    ensures
        ({
            let s = slashed(names);
            let all = spans(s, 0);
            &&& trimmed(s)
            &&& s != seq!['.']
            &&& all.len() == names.len()
            &&& forall|i: int|
                0 <= i < names.len() ==> s.subrange((#[trigger] all[i]).0, all[i].1) == names[i]
        }),
    decreases names.len(),
{
    let s = slashed(names);
    let all = spans(s, 0);
    let last = names.last();
    lemma_name(last);
    if names.len() == 1 {
        assert(all[0] == (0int, s.len() as int));
        assert(s.subrange(0, s.len() as int) =~= names[0]);
    } else {
        let before = names.drop_last();
        let a = slashed(before);
        let some = spans(a, 0);
        assert forall|i: int| 0 <= i < before.len() implies is_name(#[trigger] before[i]) by {
            assert(before[i] == names[i]);
        }
        lemma_slashed(before);
        lemma_spans(a, 0);
        lemma_spans_concat(a, last, 0);
        let by = 1 + a.len() as int;
        assert(moved(spans(last, 0), by) =~= seq![(by, by + last.len())]);
        assert(all =~= some.push((by, by + last.len())));
        assert(s.len() > 1);
        assert forall|i: int| 0 <= i < names.len() implies s.subrange(
            (#[trigger] all[i]).0,
            all[i].1,
        ) == names[i] by {
            if i < before.len() {
                assert(all[i] == some[i]);
                assert(a.subrange(some[i].0, some[i].1) == before[i]);
                assert(s.subrange(some[i].0, some[i].1) =~= a.subrange(some[i].0, some[i].1));
            } else {
                assert(s.subrange(by, by + last.len()) =~= last);
            }
        }
        assert(all[0] == some[0]);
    }
}

/// The kinds of components in their order.
pub open spec fn part_rank(p: Part) -> int {
    match p {
        Part::Root => 0,
        Part::Current => 1,
        Part::Parent => 2,
        Part::Normal(_) => 3,
    }
}

/// `a` comes before `b`: by kind, and named components by their names.
pub open spec fn part_before(a: Part, b: Part) -> bool {
    match (a, b) {
        (Part::Normal(x), Part::Normal(y)) => text::text_before(x, y),
        _ => part_rank(a) < part_rank(b),
    }
}

/// Paths are ordered by their first differing component.
pub open spec fn parts_before(a: Seq<Part>, b: Seq<Part>) -> bool
    decreases a.len(),
{
    if b.len() == 0 {
        false
    } else if a.len() == 0 {
        true
    } else if a[0] == b[0] {
        parts_before(a.drop_first(), b.drop_first())
    } else {
        part_before(a[0], b[0])
    }
}

proof fn lemma_part_order(a: Part, b: Part, c: Part)
    ensures
        !part_before(a, a),
        part_before(a, b) && part_before(b, c) ==> part_before(a, c),
        a == b || part_before(a, b) || part_before(b, a),
{
    if let Part::Normal(x) = a {
        text::lemma_text_irreflexive(x);
        if let Part::Normal(y) = b {
            text::lemma_text_total(x, y);
            if let Part::Normal(z) = c {
                if text::text_before(x, y) && text::text_before(y, z) {
                    text::lemma_text_transitive(x, y, z);
                }
            }
        }
    }
}

proof fn lemma_parts_irreflexive(a: Seq<Part>)
    ensures
        !parts_before(a, a),
    decreases a.len(),
{
    if a.len() > 0 {
        lemma_parts_irreflexive(a.drop_first());
    }
}

proof fn lemma_parts_transitive(a: Seq<Part>, b: Seq<Part>, c: Seq<Part>)
    requires
        parts_before(a, b),
        parts_before(b, c),
    ensures
        parts_before(a, c),
    decreases a.len(),
{
    if a.len() > 0 {
        if a[0] == b[0] && b[0] == c[0] {
            lemma_parts_transitive(a.drop_first(), b.drop_first(), c.drop_first());
        } else {
            lemma_part_order(a[0], b[0], c[0]);
            if a[0] == c[0] {
                lemma_part_order(a[0], b[0], a[0]);
            }
        }
    }
}

proof fn lemma_parts_total(a: Seq<Part>, b: Seq<Part>)
    ensures
        a == b || parts_before(a, b) || parts_before(b, a),
    decreases a.len(),
{
    if a.len() > 0 && b.len() > 0 {
        if a[0] == b[0] {
            lemma_parts_total(a.drop_first(), b.drop_first());
            if a.drop_first() == b.drop_first() {
                assert(a =~= seq![a[0]] + a.drop_first());
                assert(b =~= seq![b[0]] + b.drop_first());
            }
        } else {
            lemma_part_order(a[0], b[0], a[0]);
        }
    } else if a.len() == 0 && b.len() == 0 {
        assert(a =~= b);
    }
}

/// Whether one component comes before another.
fn component_is_before(a: &Component, b: &Component) -> (r: bool)
    ensures
        r == part_before(a.part(), b.part()),
{
    match (a, b) {
        (Component::Normal(x), Component::Normal(y)) => text::text_is_before(
            x.as_str(),
            y.as_str(),
        ),
        (Component::RootDir, Component::RootDir) => false,
        (Component::RootDir, _) => true,
        (Component::CurDir, Component::RootDir) => false,
        (Component::CurDir, Component::CurDir) => false,
        (Component::CurDir, _) => true,
        (Component::ParentDir, Component::Normal(_)) => true,
        (Component::ParentDir, _) => false,
        (Component::Normal(_), _) => false,
    }
}

/// Whether the path `a` comes before the path `b`.
pub fn path_is_before(a: &str, b: &str) -> (r: bool)
    ensures
        r == parts_before(parts(a@), parts(b@)),
{
    let xs = components(a);
    let ys = components(b);
    let ghost f = |c: Component| c.part();
    let ghost ps = parts(a@);
    let ghost qs = parts(b@);
    proof {
        assert(xs@.map_values(f) =~= ps);
        assert(ys@.map_values(f) =~= qs);
        assert(ps.skip(0) =~= ps);
        assert(qs.skip(0) =~= qs);
    }
    let mut i: usize = 0;
    while i < xs.len() && i < ys.len()
        invariant
            f == (|c: Component| c.part()),
            xs@.map_values(f) == ps,
            ys@.map_values(f) == qs,
            i <= xs@.len(),
            i <= ys@.len(),
            parts_before(ps, qs) == parts_before(ps.skip(i as int), qs.skip(i as int)),
            ps == parts(a@),
            qs == parts(b@),
        decreases xs@.len() - i,
    {
        proof {
            assert(xs@.map_values(f)[i as int] == xs@[i as int].part());
            assert(ys@.map_values(f)[i as int] == ys@[i as int].part());
            assert(ps.skip(i as int)[0] == xs@[i as int].part());
            assert(qs.skip(i as int)[0] == ys@[i as int].part());
            assert(ps.skip(i as int).drop_first() =~= ps.skip(i + 1));
            assert(qs.skip(i as int).drop_first() =~= qs.skip(i + 1));
        }
        if !same_component(&xs[i], &ys[i]) {
            return component_is_before(&xs[i], &ys[i]);
        }
        i += 1;
    }
    i < ys.len()
}

/// A path as a key, by its components.
#[derive(Debug)]
pub struct PathKey {
    pub path: String,
}

impl OrderedKey for PathKey {
    type Model = Seq<Part>;

    open spec fn model(&self) -> Seq<Part> {
        parts(self.path@)
    }

    open spec fn before(a: Seq<Part>, b: Seq<Part>) -> bool {
        parts_before(a, b)
    }

    proof fn irreflexive(a: Seq<Part>) {
        lemma_parts_irreflexive(a);
    }

    proof fn transitive(a: Seq<Part>, b: Seq<Part>, c: Seq<Part>) {
        lemma_parts_transitive(a, b, c);
    }

    proof fn total(a: Seq<Part>, b: Seq<Part>) {
        lemma_parts_total(a, b);
    }

    fn is_before(&self, other: &Self) -> (r: bool) {
        path_is_before(self.path.as_str(), other.path.as_str())
    }
}

/// `path` is in `list`, and no path with its components comes earlier.
pub open spec fn first_of_its_parts(list: Seq<Seq<char>>, path: Seq<char>) -> bool {
    exists|k: int|
        {
            &&& 0 <= k < list.len()
            &&& #[trigger] list[k] == path
            &&& forall|m: int| 0 <= m < k ==> parts(#[trigger] list[m]) != parts(path)
        }
}

/// Some path of `list` has the components `all`.
pub open spec fn has_parts(list: Seq<Seq<char>>, all: Seq<Part>) -> bool {
    exists|i: int| 0 <= i < list.len() && parts(#[trigger] list[i]) == all
}

/// `sorted` holds the paths of `list` in ascending order, and of those with the
/// same components the first.
pub open spec fn sorts(list: Seq<Seq<char>>, sorted: Seq<Seq<char>>) -> bool {
    &&& forall|i: int, j: int|
        0 <= i < j < sorted.len() ==> parts_before(
            parts(#[trigger] sorted[i]),
            parts(#[trigger] sorted[j]),
        )
    &&& forall|i: int| 0 <= i < sorted.len() ==> first_of_its_parts(list, #[trigger] sorted[i])
    &&& forall|k: int| 0 <= k < list.len() ==> has_parts(sorted, parts(#[trigger] list[k]))
}

/// A list of paths is sorted in one way only.
pub proof fn law_sorts_unique(list: Seq<Seq<char>>, a: Seq<Seq<char>>, b: Seq<Seq<char>>)
    requires
        sorts(list, a),
        sorts(list, b),
    ensures
        a == b,
{
    lemma_sorted_prefix(list, a, b, a.len() as int);
    lemma_sorted_prefix(list, b, a, b.len() as int);
    assert(a =~= b);
}

/// Two sortings of a list agree in their first paths.
proof fn lemma_sorted_prefix(
    list: Seq<Seq<char>>,
    a: Seq<Seq<char>>,
    b: Seq<Seq<char>>,
    n: int,
)
    requires
        sorts(list, a),
        sorts(list, b),
        0 <= n <= a.len(),
    ensures
        n <= b.len(),
        forall|i: int| 0 <= i < n ==> a[i] == #[trigger] b[i],
    decreases n,
{
    if n > 0 {
        lemma_sorted_prefix(list, a, b, n - 1);
        let m = n - 1;
        let j = lemma_sorted_counterpart(list, a, b, m);
        if j < m {
            assert(a[j] == b[j]);
            assert(parts_before(parts(a[j]), parts(a[m])));
            lemma_parts_irreflexive(parts(a[m]));
        }
        let i = lemma_sorted_counterpart(list, b, a, m);
        if i < m {
            assert(a[i] == b[i]);
            assert(parts_before(parts(b[i]), parts(b[m])));
            lemma_parts_irreflexive(parts(b[m]));
        }
        if j > m {
            assert(parts_before(parts(b[m]), parts(b[j])));
            if i > m {
                assert(parts_before(parts(a[m]), parts(a[i])));
                lemma_parts_transitive(parts(a[m]), parts(b[m]), parts(a[m]));
            }
            lemma_parts_irreflexive(parts(a[m]));
        }
        assert(j == m);
        assert(first_of_its_parts(list, a[m]));
        assert(first_of_its_parts(list, b[m]));
        let k = choose|k: int|
            {
                &&& 0 <= k < list.len()
                &&& #[trigger] list[k] == a[m]
                &&& forall|x: int| 0 <= x < k ==> parts(#[trigger] list[x]) != parts(a[m])
            };
        let l = choose|l: int|
            {
                &&& 0 <= l < list.len()
                &&& #[trigger] list[l] == b[m]
                &&& forall|x: int| 0 <= x < l ==> parts(#[trigger] list[x]) != parts(b[m])
            };
        assert(k == l);
    }
}

/// Each path of one sorting has a path with its components in the other.
proof fn lemma_sorted_counterpart(
    list: Seq<Seq<char>>,
    a: Seq<Seq<char>>,
    b: Seq<Seq<char>>,
    m: int,
) -> (j: int)
    requires
        sorts(list, a),
        sorts(list, b),
        0 <= m < a.len(),
    ensures
        0 <= j < b.len(),
        parts(b[j]) == parts(a[m]),
{
    assert(first_of_its_parts(list, a[m]));
    let k = choose|k: int|
        {
            &&& 0 <= k < list.len()
            &&& #[trigger] list[k] == a[m]
            &&& forall|x: int| 0 <= x < k ==> parts(#[trigger] list[x]) != parts(a[m])
        };
    assert(has_parts(b, parts(list[k])));
    choose|j: int| 0 <= j < b.len() && parts(#[trigger] b[j]) == parts(list[k])
}

/// What comes out of a sort was in the list.
pub proof fn lemma_sorted_from(list: Seq<Seq<char>>, sorted: Seq<Seq<char>>, i: int)
    requires
        sorts(list, sorted),
        0 <= i < sorted.len(),
    ensures
        list.contains(sorted[i]),
{
    assert(first_of_its_parts(list, sorted[i]));
    let k = choose|k: int|
        {
            &&& 0 <= k < list.len()
            &&& #[trigger] list[k] == sorted[i]
            &&& forall|m: int| 0 <= m < k ==> parts(#[trigger] list[m]) != parts(sorted[i])
        };
    assert(list[k] == sorted[i]);
}

/// The paths of `list` in ascending order, without repetitions.
pub fn sort_paths(list: &Vec<String>) -> (r: Vec<String>)
    ensures
        sorts(text::texts(list@), text::texts(r@)),
{
    let ghost all = text::texts(list@);
    let mut kept: OrderedMap<PathKey, ()> = OrderedMap::new();
    let mut i: usize = 0;
    proof {
        kept.listed().to_multiset_ensures();
    }
    while i < list.len()
        invariant
            all == text::texts(list@),
            i <= list@.len(),
            forall|e: (PathKey, ())| #[trigger]
                kept.listed().to_multiset().count(e) > 0 ==> first_of_its_parts(
                    all.take(i as int),
                    e.0.path@,
                ),
            forall|k: int| 0 <= k < i ==> kept@.contains_key(parts(#[trigger] all[k])),
            forall|m: Seq<Part>| #[trigger]
                kept@.contains_key(m) ==> has_parts(all.take(i as int), m),
        decreases list@.len() - i,
    {
        let key = PathKey { path: list[i].clone() };
        let ghost before = kept.listed().to_multiset();
        let ghost known = kept@;
        let ghost path = list@[i as int]@;
        kept.insert_new(key, ());
        proof {
            let some = all.take(i as int);
            let more = all.take(i + 1);
            assert(all[i as int] == path);
            assert(more[i as int] == path);
            assert forall|e: (PathKey, ())| #[trigger]
                kept.listed().to_multiset().count(e) > 0 implies first_of_its_parts(
                more,
                e.0.path@,
            ) by {
                if before.count(e) > 0 {
                    let k = choose|k: int|
                        {
                            &&& 0 <= k < some.len()
                            &&& #[trigger] some[k] == e.0.path@
                            &&& forall|m: int|
                                0 <= m < k ==> parts(#[trigger] some[m]) != parts(e.0.path@)
                        };
                    assert(more[k] == e.0.path@);
                    assert forall|m: int| 0 <= m < k implies parts(#[trigger] more[m]) != parts(
                        e.0.path@,
                    ) by {
                        assert(some[m] == more[m]);
                    }
                } else {
                    assert(e.0.path@ == path);
                    assert(!known.contains_key(parts(path)));
                    assert forall|m: int| 0 <= m < i implies parts(#[trigger] more[m]) != parts(
                        path,
                    ) by {
                        assert(known.contains_key(parts(all[m])));
                    }
                }
            }
            assert forall|m: Seq<Part>| #[trigger] kept@.contains_key(m) implies has_parts(
                more,
                m,
            ) by {
                if known.contains_key(m) {
                    let k = choose|k: int| 0 <= k < some.len() && parts(#[trigger] some[k]) == m;
                    assert(parts(more[k]) == m);
                } else {
                    assert(parts(more[i as int]) == m);
                }
            }
        }
        i += 1;
    }
    let ghost entries = kept.listed();
    let ghost found = kept@;
    let keys = kept.into_keys();
    proof {
        assert(all.take(i as int) =~= all);
        entries.to_multiset_ensures();
    }
    let mut r: Vec<String> = Vec::new();
    let mut j: usize = 0;
    while j < keys.len()
        invariant
            j <= keys@.len(),
            r@.len() == j,
            forall|k: int| 0 <= k < j ==> (#[trigger] r@[k])@ == keys@[k].path@,
        decreases keys@.len() - j,
    {
        r.push(keys[j].path.clone());
        j += 1;
    }
    proof {
        let sorted = text::texts(r@);
        assert forall|a: int, b: int| 0 <= a < b < sorted.len() implies parts_before(
            parts(#[trigger] sorted[a]),
            parts(#[trigger] sorted[b]),
        ) by {
            assert(PathKey::before(keys@[a].model(), keys@[b].model()));
        }
        assert forall|a: int| 0 <= a < sorted.len() implies first_of_its_parts(
            all,
            #[trigger] sorted[a],
        ) by {
            assert(keys@[a] == entries[a].0);
            assert(entries.contains(entries[a]));
            assert(entries.to_multiset().count(entries[a]) > 0);
            assert(sorted[a] == r@[a]@);
        }
        assert forall|k: int| 0 <= k < all.len() implies has_parts(
            sorted,
            parts(#[trigger] all[k]),
        ) by {
            let m = parts(all[k]);
            assert(found.dom().contains(m));
            assert(ordered::models(keys@).contains(m));
            let a = choose|a: int| 0 <= a < keys@.len() && #[trigger] keys@[a].model() == m;
            assert(parts(sorted[a]) == m);
        }
    }
    r
}

/// The component that a name makes.
pub open spec fn part_of(name: Seq<char>) -> Part {
    if name == seq!['.', '.'] {
        Part::Parent
    } else {
        Part::Normal(name)
    }
}

/// The components of names with `/` between them are those names, one by one,
/// however many there are, and behind a leading `/` those of a path from the
/// root directory.
pub proof fn law_parts_of_names(names: Seq<Seq<char>>)
    requires
        names.len() > 0,
        forall|i: int| 0 <= i < names.len() ==> is_name(#[trigger] names[i]),
    ensures
        parts(slashed(names)).len() == names.len(),
        forall|i: int|
            0 <= i < names.len() ==> #[trigger] parts(slashed(names))[i] == part_of(names[i]),
        parts(seq!['/'] + slashed(names)) == seq![Part::Root] + parts(slashed(names)),
{
    let s = slashed(names);
    let all = spans(s, 0);
    lemma_slashed(names);
    lemma_spans(s, 0);
    assert(s[all[0].0] != '/');
    assert(!dotted(s)) by {
        if dotted(s) {
            if s.len() == 1 {
                assert(s =~= seq!['.']);
            } else {
                assert(s[1] == '/');
                if all[0].1 > 1 {
                    assert(s[1] != '/');
                }
                assert(blank(s, all[0].0, all[0].1));
            }
        }
    }
    assert(parts(s) =~= body(s, 0));
    assert forall|i: int| 0 <= i < names.len() implies #[trigger] parts(s)[i] == part_of(
        names[i],
    ) by {
        assert(s.subrange(all[i].0, all[i].1) == names[i]);
    }
    let none = Seq::<char>::empty();
    lemma_body_concat(none, s, 0);
    assert(none + seq!['/'] + s =~= seq!['/'] + s);
    assert(body(none, 0) =~= Seq::<Part>::empty());
    assert(parts(seq!['/'] + s) =~= seq![Part::Root] + parts(s));
}

/// A separator between two paths separates their named components, also where
/// the one ends or the other begins with separators.
pub proof fn law_separator_separates(a: Seq<char>, b: Seq<char>)
    requires
        a.len() > 0,
    ensures
        parts(a + seq!['/'] + b) == parts(a) + body(b, 0),
{
    lemma_body_concat(a, b, 0);
    let s = a + seq!['/'] + b;
    assert(s[0] == a[0]);
    if a.len() > 1 {
        assert(s[1] == a[1]);
    }
    assert(lead(s) == lead(a));
    assert(parts(s) =~= parts(a) + body(b, 0));
}

/// A path that begins with `/` is its own join to any base; another one adds its
/// components to those of the base, but for a leading `.`.
pub proof fn law_join(base: Seq<char>, rel: Seq<char>)
    ensures
        rel.len() > 0 && rel[0] == '/' ==> joined(base, rel) == rel,
        base.len() == 0 ==> joined(base, rel) == rel,
        base.len() > 0 && (rel.len() == 0 || rel[0] != '/') ==> {
            let own = parts(rel);
            parts(joined(base, rel)) == parts(base) + if own.len() > 0 && own[0] is Current {
                own.drop_first()
            } else {
                own
            }
        },
{
    if base.len() == 0 {
        assert(joined(base, rel) =~= rel);
    } else if !absolute(rel) {
        lemma_joined(base, rel);
        let own = parts(rel);
        if dotted(rel) {
            assert(own.drop_first() =~= body(rel, 0));
        } else {
            assert(own =~= body(rel, 0));
            if own.len() > 0 {
                assert(body(rel, 0)[0] == part_at(rel, spans(rel, 0)[0]));
            }
        }
    }
}

/// A path has a place below a base exactly where the components of the base are
/// its first ones, and the text of that place stands in the path.
pub proof fn law_relative(s: Seq<char>, base: Seq<char>)
    ensures
        relative(s, base) is Some <==> parts(base).is_prefix_of(parts(s)),
        relative(s, base) is Some ==> exists|a: int, b: int|
            0 <= a <= b <= s.len() && relative(s, base)->0 == #[trigger] s.subrange(a, b),
{
    if relative(s, base) is Some {
        let n = parts(base).len() as int;
        let all = spans(s, 0);
        let first = n - lead(s).len();
        lemma_spans(s, 0);
        let rel = relative(s, base)->0;
        if n == 0 {
            let b = if all.len() > 0 {
                all.last().1
            } else {
                lead(s).len() as int
            };
            assert(rel =~= s.subrange(0, b));
        } else if first < all.len() {
            assert(parts(s).len() >= n);
            assert(first >= 0);
            if first < all.len() - 1 {
                assert(all[first].1 < all[all.len() - 1].0);
            }
            assert(rel =~= s.subrange(all[first].0, all.last().1));
        } else {
            assert(rel =~= s.subrange(0, 0));
        }
    }
}

/// Paths are ordered by the first component in which they differ: the root
/// directory comes first, then `.`, then `..`, and then names in their order.
pub proof fn law_path_order(common: Seq<Part>, x: Part, y: Part, a: Seq<Part>, b: Seq<Part>)
    ensures
        x != y ==> (parts_before(common + seq![x] + a, common + seq![y] + b) <==> match (x, y) {
            (Part::Normal(p), Part::Normal(q)) => text::text_before(p, q),
            (Part::Root, _) => true,
            (_, Part::Root) => false,
            (Part::Current, _) => true,
            (_, Part::Current) => false,
            (Part::Parent, _) => true,
            (_, Part::Parent) => false,
        }),
        parts_before(common, common + seq![x] + a),
    decreases common.len(),
{
    let s = common + seq![x] + a;
    let t = common + seq![y] + b;
    if common.len() == 0 {
        assert(s[0] == x && t[0] == y);
    } else {
        let rest = common.drop_first();
        law_path_order(rest, x, y, a, b);
        assert(s.drop_first() =~= rest + seq![x] + a);
        assert(t.drop_first() =~= rest + seq![y] + b);
    }
}

/// Cutting a text off behind one of its components leaves it and those before
/// it.
proof fn lemma_cut_at(s: Seq<char>, from: int, k: int)
    requires
        0 <= from,
        0 <= k < spans(s, from).len(),
    ensures
        from < spans(s, from)[k].1 <= s.len(),
        spans(s.take(spans(s, from)[k].1), from) == spans(s, from).take(k + 1),
    decreases s.len() + 1 - from,
{
    lemma_spans(s, from);
    let all = spans(s, from);
    let y = all[k].1;
    let t = s.take(y);
    text::lemma_position_of(s, '/', from);
    let to = text::position_of(s, '/', from);
    let rest = spans(s, to + 1);
    if blank(s, from, to) {
        lemma_cut_at(s, to + 1, k);
        lemma_position_cut(s, y, from);
        assert(blank(t, from, to));
        assert(spans(t, from) =~= all.take(k + 1));
    } else {
        assert(all =~= seq![(from, to)] + rest);
        if k == 0 {
            lemma_position_cut(s, y, from);
            assert(!blank(t, from, to));
            assert(spans(t, to + 1) =~= Seq::<(int, int)>::empty());
            assert(spans(t, from) =~= all.take(1));
        } else {
            assert(all[k] == rest[k - 1]);
            lemma_cut_at(s, to + 1, k - 1);
            lemma_position_cut(s, y, from);
            assert(!blank(t, from, to));
            assert(rest.take(k) =~= spans(t, to + 1));
            assert(spans(t, from) =~= all.take(k + 1));
        }
    }
}

/// The parent of a path has its components but for the last one. The empty path
/// and the root directory have none.
pub proof fn law_parent(s: Seq<char>)
    ensures
        without_last(s) is Some <==> parts(s).len() > 0 && !(parts(s).last() is Root),
        without_last(s) is Some ==> parts(without_last(s)->0) == parts(s).drop_last(),
{
    let all = spans(s, 0);
    let head = lead(s).len() as int;
    lemma_spans(s, 0);
    if all.len() > 0 {
        assert(parts(s).last() == body(s, 0).last());
        assert(body(s, 0).last() == part_at(s, all.last()));
        assert(all[0].0 >= head) by {
            if absolute(s) {
                if all[0].0 == 0 {
                    assert(s[0] != '/');
                }
            } else if dotted(s) {
                if all[0].0 == 0 {
                    if s.len() > 1 && all[0].1 > 1 {
                        assert(s[1] != '/');
                    }
                    assert(blank(s, all[0].0, all[0].1));
                }
            }
        }
    } else {
        assert(parts(s) =~= lead(s));
    }
    if without_last(s) is Some {
        let t = without_last(s)->0;
        if all.len() > 1 {
            let k = all.len() - 2;
            lemma_cut_at(s, 0, k);
            assert(all[0].0 <= all[k].0);
            let y = all[k].1;
            assert(t == s.take(y));
            assert(t[0] == s[0]);
            if y > 1 {
                assert(t[1] == s[1]);
            }
            assert(lead(t) == lead(s));
            assert forall|i: int| 0 <= i <= k implies #[trigger] body(t, 0)[i] == body(s, 0)[i] by {
                if i < k {
                    assert(all[i].1 < all[k].0);
                }
                assert(t.subrange(all[i].0, all[i].1) =~= s.subrange(all[i].0, all[i].1));
            }
            assert(body(t, 0) =~= body(s, 0).drop_last());
            assert(parts(t) =~= parts(s).drop_last());
        } else if all.len() == 1 {
            assert(t == s.take(head));
            assert(spans(t, 0).len() == 0) by {
                if head == 1 {
                    text::lemma_position_of(t, '/', 0);
                    let to = text::position_of(t, '/', 0);
                    assert(blank(t, 0, to));
                    assert(spans(t, to + 1) =~= Seq::<(int, int)>::empty());
                }
            }
            if head == 1 {
                assert(t[0] == s[0]);
            }
            assert(lead(t) =~= lead(s));
            assert(parts(t) =~= parts(s).drop_last());
        } else {
            assert(spans(t, 0) =~= Seq::<(int, int)>::empty());
            assert(parts(t) =~= parts(s).drop_last());
        }
    }
}

/// The last name of a path is its last component, where that is a name.
pub proof fn law_last_name(s: Seq<char>, name: Seq<char>)
    ensures
        last_name(s) == Some(name) <==> parts(s).len() > 0 && parts(s).last() == Part::Normal(name),
{
}

/// A path has the components of the one it lies under and after them those of its
/// relative path.
pub proof fn law_relative_parts(s: Seq<char>, base: Seq<char>)
    requires
        relative(s, base) is Some,
    ensures
        parts(base) + parts(relative(s, base)->0) == parts(s),
{
    let n = parts(base).len() as int;
    let rel = relative(s, base)->0;
    let all = spans(s, 0);
    lemma_spans(s, 0);
    if n == 0 {
        law_relative_joined(s, base);
        lemma_no_parts(base);
        assert(joined(base, rel) =~= rel);
        assert(parts(base) + parts(rel) =~= parts(rel));
    } else {
        let first = n - lead(s).len();
        assert(parts(base)[0] == parts(s)[0]);
        assert(parts(base) =~= parts(s).take(n));
        assert(parts(s) =~= parts(s).take(n) + body(s, 0).skip(first));
        if first < all.len() {
            lemma_tail(s, first);
            let (x, y) = all[first];
            if first < all.len() - 1 {
                assert(all[first].1 < all[all.len() - 1].0);
            }
            assert(!dotted(rel)) by {
                if dotted(rel) {
                    assert(s[x] == '.');
                    if rel.len() > 1 && y > x + 1 {
                        assert(rel[1] == s[x + 1]);
                    }
                }
            }
            assert(parts(rel) =~= body(rel, 0));
        } else {
            assert(parts(rel) =~= Seq::<Part>::empty());
        }
    }
}

/// Of the paths to one place a sorted list holds the first, and it is no longer
/// than the list that it was sorted from.
pub proof fn law_sorted_paths(list: Seq<Seq<char>>, sorted: Seq<Seq<char>>, k: int)
    requires
        sorts(list, sorted),
        0 <= k < list.len(),
        forall|m: int| 0 <= m < k ==> parts(#[trigger] list[m]) != parts(list[k]),
    ensures
        sorted.contains(list[k]),
        sorted.len() <= list.len(),
{
    assert(has_parts(sorted, parts(list[k])));
    let i = choose|i: int| 0 <= i < sorted.len() && parts(#[trigger] sorted[i]) == parts(list[k]);
    assert(first_of_its_parts(list, sorted[i]));
    let n = choose|n: int|
        {
            &&& 0 <= n < list.len()
            &&& #[trigger] list[n] == sorted[i]
            &&& forall|m: int| 0 <= m < n ==> parts(#[trigger] list[m]) != parts(sorted[i])
        };
    if n < k {
        assert(parts(list[n]) != parts(list[k]));
    }
    if k < n {
        assert(parts(list[k]) != parts(sorted[i]));
    }
    lemma_sorted_len(list, sorted);
}

/// A sorted list is no longer than the list that it was sorted from.
proof fn lemma_sorted_len(list: Seq<Seq<char>>, sorted: Seq<Seq<char>>)
    requires
        sorts(list, sorted),
    ensures
        sorted.len() <= list.len(),
{
    assert(sorted.no_duplicates()) by {
        assert forall|i: int, j: int|
            0 <= i < sorted.len() && 0 <= j < sorted.len() && i != j implies sorted[i]
            != sorted[j] by {
            if i < j {
                lemma_parts_irreflexive(parts(sorted[i]));
                assert(parts_before(parts(sorted[i]), parts(sorted[j])));
            } else {
                lemma_parts_irreflexive(parts(sorted[j]));
                assert(parts_before(parts(sorted[j]), parts(sorted[i])));
            }
        }
    }
    sorted.unique_seq_to_set();
    assert(sorted.to_set().subset_of(list.to_set())) by {
        assert forall|p: Seq<char>| sorted.to_set().contains(p) implies list.to_set().contains(
            p,
        ) by {
            let i = choose|i: int| 0 <= i < sorted.len() && sorted[i] == p;
            assert(first_of_its_parts(list, sorted[i]));
        }
    }
    list.lemma_cardinality_of_set();
    vstd::set_lib::lemma_len_subset(sorted.to_set(), list.to_set());
}

} // verus!
