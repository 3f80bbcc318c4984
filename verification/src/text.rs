//! Text helpers: the lexicographic order of strings, and scanning by
//! character.
use vstd::prelude::*;

use crate::ordered;

verus! {

/// `a` comes before `b` in lexicographic order of code points.
pub open spec fn text_before(a: Seq<char>, b: Seq<char>) -> bool
    decreases a.len(),
{
    if b.len() == 0 {
        false
    } else if a.len() == 0 {
        true
    } else if a[0] == b[0] {
        text_before(a.drop_first(), b.drop_first())
    } else {
        (a[0] as int) < (b[0] as int)
    }
}

/// No text comes before itself.
pub proof fn lemma_text_irreflexive(a: Seq<char>)
    ensures
        !text_before(a, a),
    decreases a.len(),
{
    if a.len() > 0 {
        lemma_text_irreflexive(a.drop_first());
    }
}

/// The order of texts is transitive.
pub proof fn lemma_text_transitive(a: Seq<char>, b: Seq<char>, c: Seq<char>)
    requires
        text_before(a, b),
        text_before(b, c),
    ensures
        text_before(a, c),
    decreases a.len(),
{
    if a.len() > 0 && a[0] == b[0] && b[0] == c[0] {
        lemma_text_transitive(a.drop_first(), b.drop_first(), c.drop_first());
    }
}

/// Two different texts are ordered one way or the other.
pub proof fn lemma_text_total(a: Seq<char>, b: Seq<char>)
    ensures
        a == b || text_before(a, b) || text_before(b, a),
    decreases a.len(),
{
    if a.len() > 0 && b.len() > 0 && a[0] == b[0] {
        lemma_text_total(a.drop_first(), b.drop_first());
        if a.drop_first() == b.drop_first() {
            assert(a =~= seq![a[0]] + a.drop_first());
            assert(b =~= seq![b[0]] + b.drop_first());
        }
    } else if a.len() == 0 && b.len() == 0 {
        assert(a =~= b);
    }
}

/// The texts of a list of strings.
pub open spec fn texts(list: Seq<String>) -> Seq<Seq<char>> {
    list.map_values(|s: String| s@)
}

/// `s` begins with `prefix`.
pub open spec fn begins_with(s: Seq<char>, prefix: Seq<char>) -> bool {
    prefix.len() <= s.len() && s.take(prefix.len() as int) == prefix
}

/// The first position of `c` in `s` at or after `from`, or the length of `s`
/// where there is none.
pub open spec fn position_of(s: Seq<char>, c: char, from: int) -> int
    decreases s.len() - from,
{
    if from >= s.len() {
        s.len() as int
    } else if s[from] == c {
        from
    } else {
        position_of(s, c, from + 1)
    }
}

/// `position_of` stays between `from` and the end, and skips only other
/// characters.
pub proof fn lemma_position_of(s: Seq<char>, c: char, from: int)
    requires
        0 <= from <= s.len(),
    ensures
        from <= position_of(s, c, from) <= s.len(),
        position_of(s, c, from) < s.len() ==> s[position_of(s, c, from)] == c,
        forall|i: int| from <= i < position_of(s, c, from) ==> s[i] != c,
    decreases s.len() - from,
{
    if from < s.len() && s[from] != c {
        lemma_position_of(s, c, from + 1);
    }
}

/// Whether `a` comes before `b`.
pub fn text_is_before(a: &str, b: &str) -> (r: bool)
    ensures
        r == text_before(a@, b@),
{
    let mut x = a.chars();
    let mut y = b.chars();
    loop
        invariant
            text_before(a@, b@) == text_before(
                vstd::std_specs::iter::IteratorSpec::remaining(&x),
                vstd::std_specs::iter::IteratorSpec::remaining(&y),
            ),
            vstd::std_specs::iter::IteratorSpec::decrease(&x) is Some,
        decreases vstd::std_specs::iter::IteratorSpec::decrease(&x)->0,
    {
        match y.next() {
            None => {
                return false;
            },
            Some(d) => match x.next() {
                None => {
                    return true;
                },
                Some(c) => {
                    if c != d {
                        return c < d;
                    }
                },
            },
        }
    }
}

/// The characters of `s`.
pub fn chars_of(s: &str) -> (v: Vec<char>)
    ensures
        v@ == s@,
{
    let mut v: Vec<char> = Vec::new();
    for c in it: s.chars()
        invariant
            v@ == s@.take(it.index() as int),
            it.seq() == s@,
    {
        v.push(c);
    }
    v
}

/// Whether two texts are equal.
pub fn same_text(a: &str, b: &str) -> (r: bool)
    ensures
        r == (a@ == b@),
{
    let mut x = a.chars();
    let mut y = b.chars();
    let ghost mut n: int = 0;
    loop
        invariant
            0 <= n <= a@.len(),
            n <= b@.len(),
            a@.take(n) == b@.take(n),
            vstd::std_specs::iter::IteratorSpec::remaining(&x) == a@.skip(n),
            vstd::std_specs::iter::IteratorSpec::remaining(&y) == b@.skip(n),
            vstd::std_specs::iter::IteratorSpec::decrease(&x) is Some,
        decreases vstd::std_specs::iter::IteratorSpec::decrease(&x)->0,
    {
        let c = x.next();
        let d = y.next();
        match (c, d) {
            (Some(c), Some(d)) => {
                proof {
                    assert(a@.skip(n)[0] == a@[n]);
                    assert(b@.skip(n)[0] == b@[n]);
                }
                if c != d {
                    return false;
                }
                proof {
                    assert(a@.take(n + 1) =~= a@.take(n).push(a@[n]));
                    assert(b@.take(n + 1) =~= b@.take(n).push(b@[n]));
                    assert(a@.skip(n).drop_first() =~= a@.skip(n + 1));
                    assert(b@.skip(n).drop_first() =~= b@.skip(n + 1));
                    n = n + 1;
                }
            },
            (None, None) => {
                proof {
                    assert(a@.take(n) =~= a@);
                    assert(b@.take(n) =~= b@);
                }
                return true;
            },
            (None, Some(_)) => {
                proof {
                    assert(a@.skip(n).len() == 0);
                    assert(b@.skip(n).len() > 0);
                }
                return false;
            },
            (Some(_), None) => {
                proof {
                    assert(a@.skip(n).len() > 0);
                    assert(b@.skip(n).len() == 0);
                }
                return false;
            },
        }
    }
}

/// Whether `s` begins with the character `c`.
pub fn starts_with_char(s: &str, c: char) -> (r: bool)
    ensures
        r == (s@.len() > 0 && s@[0] == c),
{
    let mut it = s.chars();
    match it.next() {
        Some(d) => d == c,
        None => false,
    }
}

/// Whether `s` begins with `prefix`.
pub fn starts_with(s: &str, prefix: &str) -> (r: bool)
    ensures
        r == begins_with(s@, prefix@),
{
    let a = chars_of(s);
    let b = chars_of(prefix);
    if b.len() > a.len() {
        return false;
    }
    let mut i: usize = 0;
    while i < b.len()
        invariant
            i <= b@.len() <= a@.len(),
            a@.take(i as int) == b@.take(i as int),
            a@ == s@,
            b@ == prefix@,
        decreases b@.len() - i,
    {
        if a[i] != b[i] {
            proof {
                assert(s@.take(prefix@.len() as int)[i as int] == s@[i as int]);
            }
            return false;
        }
        proof {
            assert(a@.take(i + 1) =~= a@.take(i as int).push(a@[i as int]));
            assert(b@.take(i + 1) =~= b@.take(i as int).push(b@[i as int]));
        }
        i += 1;
    }
    proof {
        assert(b@.take(i as int) =~= b@);
    }
    true
}

/// The first position of `c` in `chars` at or after `from`, or the number of
/// characters where there is none.
pub fn find_char(chars: &Vec<char>, c: char, from: usize) -> (r: usize)
    requires
        from <= chars@.len(),
    ensures
        r == position_of(chars@, c, from as int),
        from <= r <= chars@.len(),
{
    let mut i: usize = from;
    while i < chars.len() && chars[i] != c
        invariant
            from <= i <= chars@.len(),
            position_of(chars@, c, from as int) == position_of(chars@, c, i as int),
        decreases chars@.len() - i,
    {
        i += 1;
    }
    i
}

/// The text of `s` from character `from` up to character `to`.
pub fn slice_text(s: &str, from: usize, to: usize) -> (r: String)
    requires
        from <= to <= s@.len(),
    ensures
        r@ == s@.subrange(from as int, to as int),
{
    s.substring_char(from, to).to_owned()
}

/// `a` followed by `b`.
pub fn join_text(a: &str, b: &str) -> (r: String)
    ensures
        r@ == a@ + b@,
{
    let mut r = a.to_owned();
    r.append(b);
    r
}

/// A copy of a list of strings.
pub fn clone_texts(list: &Vec<String>) -> (r: Vec<String>)
    ensures
        texts(r@) == texts(list@),
        r@ == list@,
{
    let mut r: Vec<String> = Vec::new();
    let mut i: usize = 0;
    while i < list.len()
        invariant
            i <= list@.len(),
            r@ == list@.take(i as int),
        decreases list@.len() - i,
    {
        r.push(list[i].clone());
        proof {
            assert(list@.take(i + 1) =~= list@.take(i as int).push(list@[i as int]));
        }
        i += 1;
    }
    proof {
        assert(list@.take(i as int) =~= list@);
    }
    r
}

/// Whether `list` holds the text `item`.
pub fn has_text(list: &Vec<String>, item: &str) -> (r: bool)
    ensures
        r == texts(list@).contains(item@),
{
    let mut i: usize = 0;
    while i < list.len()
        invariant
            i <= list@.len(),
            forall|j: int| 0 <= j < i ==> texts(list@)[j] != item@,
        decreases list@.len() - i,
    {
        if same_text(list[i].as_str(), item) {
            proof {
                assert(texts(list@)[i as int] == item@);
            }
            return true;
        }
        i += 1;
    }
    false
}

/// An optional string, borrowed.
pub fn optional_str(s: &Option<String>) -> (r: Option<&str>)
    ensures
        match r {
            Some(r) => s is Some && r@ == (s->0)@,
            None => s is None,
        },
{
    match s {
        Some(s) => Some(s.as_str()),
        None => None,
    }
}

/// A copy of an optional string.
pub fn clone_optional(s: &Option<String>) -> (r: Option<String>)
    ensures
        r == *s,
{
    match s {
        Some(s) => Some(s.clone()),
        None => None,
    }
}

/// Each text of the list comes before every later one.
pub open spec fn ascends(list: Seq<Seq<char>>) -> bool {
    forall|i: int, j: int|
        0 <= i < j < list.len() ==> text_before(#[trigger] list[i], #[trigger] list[j])
}

/// The texts of a finite set in ascending order.
pub open spec fn ascending(set: Set<Seq<char>>) -> Seq<Seq<char>> {
    choose|list: Seq<Seq<char>>| #[trigger] ascends(list) && list.to_set() == set
}

/// An ascending list is the one that its set has.
pub proof fn lemma_ascending(list: Seq<Seq<char>>)
    requires
        ascends(list),
    ensures
        ascending(list.to_set()) == list,
{
    ordered::lemma_ascending_unique::<String>(ascending(list.to_set()), list);
}

/// Texts are ordered by the first character in which they differ, by its code
/// point.
pub proof fn law_text_order(common: Seq<char>, x: char, y: char, a: Seq<char>, b: Seq<char>)
    ensures
        x != y ==> (text_before(common + seq![x] + a, common + seq![y] + b) <==> (x as int) < (
        y as int)),
    decreases common.len(),
{
    let s = common + seq![x] + a;
    let t = common + seq![y] + b;
    if common.len() == 0 {
        assert(s[0] == x && t[0] == y);
    } else {
        let rest = common.drop_first();
        law_text_order(rest, x, y, a, b);
        assert(s.drop_first() =~= rest + seq![x] + a);
        assert(t.drop_first() =~= rest + seq![y] + b);
    }
}

/// A text comes before the longer ones that begin with it.
pub proof fn law_prefix_first(common: Seq<char>, more: Seq<char>)
    ensures
        text_before(common, common + more) <==> more.len() > 0,
        !text_before(common + more, common),
    decreases common.len(),
{
    let t = common + more;
    if common.len() > 0 {
        law_prefix_first(common.drop_first(), more);
        assert(t.drop_first() =~= common.drop_first() + more);
    }
}

/// The texts of strings are those of each of them, in their order.
pub proof fn law_texts(list: Seq<String>, i: int)
    ensures
        texts(list).len() == list.len(),
        0 <= i < list.len() ==> texts(list)[i] == list[i]@,
{
}

/// An ascending list with one more text, at its place.
proof fn lemma_one_more(list: Seq<Seq<char>>, t: Seq<char>) -> (more: Seq<Seq<char>>)
    requires
        ascends(list),
        !list.contains(t),
    ensures
        ascends(more),
        forall|x: Seq<char>| #[trigger] more.contains(x) <==> list.contains(x) || x == t,
    decreases list.len(),
{
    if list.len() == 0 {
        let more = seq![t];
        assert(more[0] == t);
        more
    } else {
        let last = list.last();
        let rest = list.drop_last();
        assert(list[list.len() - 1] == last);
        lemma_text_total(last, t);
        if text_before(last, t) {
            let more = list.push(t);
            assert forall|i: int, j: int| 0 <= i < j < more.len() implies text_before(
                #[trigger] more[i],
                #[trigger] more[j],
            ) by {
                if j == list.len() && i < list.len() - 1 {
                    assert(text_before(list[i], list[list.len() - 1]));
                    lemma_text_transitive(list[i], last, t);
                }
            }
            assert forall|x: Seq<char>| #[trigger] more.contains(x) <==> list.contains(x) || x
                == t by {
                if list.contains(x) {
                    let k = choose|k: int| 0 <= k < list.len() && list[k] == x;
                    assert(more[k] == x);
                }
                assert(more[list.len() as int] == t);
            }
            more
        } else {
            assert forall|x: Seq<char>| #[trigger] rest.contains(x) implies list.contains(x) by {
                let k = choose|k: int| 0 <= k < rest.len() && rest[k] == x;
                assert(list[k] == x);
            }
            let start = lemma_one_more(rest, t);
            let more = start.push(last);
            assert forall|i: int, j: int| 0 <= i < j < more.len() implies text_before(
                #[trigger] more[i],
                #[trigger] more[j],
            ) by {
                if j == start.len() {
                    assert(start.contains(start[i]));
                    if start[i] != t {
                        let k = choose|k: int| 0 <= k < rest.len() && rest[k] == start[i];
                        assert(text_before(list[k], list[list.len() - 1]));
                    }
                }
            }
            assert forall|x: Seq<char>| #[trigger] more.contains(x) <==> list.contains(x) || x
                == t by {
                if start.contains(x) {
                    let k = choose|k: int| 0 <= k < start.len() && start[k] == x;
                    assert(more[k] == x);
                }
                assert(more[start.len() as int] == last);
                if list.contains(x) && x != last {
                    let k = choose|k: int| 0 <= k < list.len() && list[k] == x;
                    assert(rest[k] == x);
                }
            }
            more
        }
    }
}

/// The texts of a finite set can be listed in ascending order.
proof fn lemma_listed(set: Set<Seq<char>>) -> (list: Seq<Seq<char>>)
    requires
        set.finite(),
    ensures
        ascends(list),
        list.to_set() == set,
    decreases set.len(),
{
    if set.is_empty() {
        let none = Seq::<Seq<char>>::empty();
        assert(none.to_set() =~= set);
        none
    } else {
        let t = set.choose();
        let fewer = lemma_listed(set.remove(t));
        assert(fewer.contains(t) <==> fewer.to_set().contains(t));
        let list = lemma_one_more(fewer, t);
        assert forall|x: Seq<char>| #[trigger] list.to_set().contains(x) <==> set.contains(x) by {
            assert(list.to_set().contains(x) <==> list.contains(x));
            assert(fewer.to_set().contains(x) <==> fewer.contains(x));
        }
        assert(list.to_set() =~= set);
        list
    }
}

/// The texts of a finite set in ascending order are those of the set, each of them
/// before every later one.
pub proof fn law_ascending(set: Set<Seq<char>>)
    requires
        set.finite(),
    ensures
        forall|t: Seq<char>| #[trigger] ascending(set).contains(t) <==> set.contains(t),
        forall|i: int, j: int|
            0 <= i < j < ascending(set).len() ==> text_before(
                #[trigger] ascending(set)[i],
                #[trigger] ascending(set)[j],
            ),
{
    let list = lemma_listed(set);
    let all = ascending(set);
    assert(ascends(all) && all.to_set() == set);
    assert forall|t: Seq<char>| #[trigger] all.contains(t) <==> set.contains(t) by {
        assert(all.to_set().contains(t) <==> all.contains(t));
    }
}

} // verus!
