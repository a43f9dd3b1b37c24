//! The order of texts, and lower case.

use vstd::prelude::*;
use crate::text;

verus! {

/// `a` comes before `b`: by the first character in which they differ, in the
/// order of code points, and a text comes before its extensions.
pub open spec fn precedes(a: Seq<char>, b: Seq<char>) -> bool
    decreases a.len(),
{
    if b.len() == 0 {
        false
    } else if a.len() == 0 {
        true
    } else if a[0] != b[0] {
        a[0] < b[0]
    } else {
        precedes(a.drop_first(), b.drop_first())
    }
}

/// No text comes before itself.
pub proof fn precedes_irreflexive(a: Seq<char>)
    ensures
        !precedes(a, a),
    decreases a.len(),
{
    if a.len() > 0 {
        precedes_irreflexive(a.drop_first());
    }
}

/// Of two different texts one comes before the other.
pub proof fn precedes_total(a: Seq<char>, b: Seq<char>)
    ensures
        a == b || precedes(a, b) || precedes(b, a),
    decreases a.len(),
{
    if a.len() == 0 || b.len() == 0 {
        if a.len() == b.len() {
            assert(a =~= b);
        }
    } else if a[0] == b[0] {
        precedes_total(a.drop_first(), b.drop_first());
        if a.drop_first() == b.drop_first() {
            assert(a =~= seq![a[0]] + a.drop_first());
            assert(b =~= seq![b[0]] + b.drop_first());
        }
    }
}

/// The order of texts is transitive.
pub proof fn precedes_transitive(a: Seq<char>, b: Seq<char>, c: Seq<char>)
    requires
        precedes(a, b),
        precedes(b, c),
    ensures
        precedes(a, c),
    decreases a.len(),
{
    if a.len() > 0 && a[0] == b[0] && b[0] == c[0] {
        precedes_transitive(a.drop_first(), b.drop_first(), c.drop_first());
    }
}

/// No two texts come before each other.
pub proof fn precedes_asymmetric(a: Seq<char>, b: Seq<char>)
    requires
        precedes(a, b),
    ensures
        !precedes(b, a),
{
    if precedes(b, a) {
        precedes_transitive(a, b, a);
        precedes_irreflexive(a);
    }
}

/// The order of code points.
fn char_below(x: char, y: char) -> (r: bool)
    ensures
        r == (x < y),
{
    (x as u32) < (y as u32)
}

/// Whether the characters `a` come before the characters `b`.
pub fn chars_precede(a: &[char], b: &[char]) -> (r: bool)
    ensures
        r == precedes(a@, b@),
{
    let mut i: usize = 0;
    assert(a@.skip(0) =~= a@);
    assert(b@.skip(0) =~= b@);
    while i < a.len() && i < b.len()
        invariant
            i <= a@.len(),
            i <= b@.len(),
            precedes(a@, b@) == precedes(a@.skip(i as int), b@.skip(i as int)),
        decreases a@.len() - i,
    {
        let x = a[i];
        let y = b[i];
        assert(a@.skip(i as int)[0] == x);
        assert(b@.skip(i as int)[0] == y);
        if x != y {
            return char_below(x, y);
        }
        assert(a@.skip(i as int).drop_first() =~= a@.skip(i + 1));
        assert(b@.skip(i as int).drop_first() =~= b@.skip(i + 1));
        i += 1;
    }
    i < b.len()
}

/// Whether the text `a` comes before the text `b`.
pub fn text_precedes(a: &str, b: &str) -> (r: bool)
    ensures
        r == precedes(a@, b@),
{
    let x = text::chars_of(a);
    let y = text::chars_of(b);
    chars_precede(x.as_slice(), y.as_slice())
}

/// The texts stand in strictly ascending order.
pub open spec fn strictly_ascending(s: Seq<Seq<char>>) -> bool {
    forall|i: int, j: int| 0 <= i < j < s.len() ==> precedes(#[trigger] s[i], #[trigger] s[j])
}

/// Two strictly ascending lists of the same texts are the same list.
pub proof fn ascending_lists_agree(a: Seq<Seq<char>>, b: Seq<Seq<char>>)
    requires
        strictly_ascending(a),
        strictly_ascending(b),
        a.to_set() == b.to_set(),
    ensures
        a == b,
    decreases a.len(),
{
    if a.len() == 0 {
        if b.len() > 0 {
            assert(b.to_set().contains(b[0]));
            assert(a.contains(b[0]));
        }
        assert(a =~= b);
    } else {
        assert(a.to_set().contains(a.last()));
        assert(b.contains(a.last()));
        let j = choose|j: int| 0 <= j < b.len() && b[j] == a.last();
        assert(b.to_set().contains(b.last()));
        assert(a.contains(b.last()));
        let i = choose|i: int| 0 <= i < a.len() && a[i] == b.last();
        if a.last() != b.last() {
            assert(precedes(a[i], a[a.len() - 1]));
            assert(precedes(b[j], b[b.len() - 1]));
            precedes_asymmetric(a.last(), b.last());
        }
        let c = a.drop_last();
        let d = b.drop_last();
        assert forall|x: Seq<char>| #[trigger] c.to_set().contains(x) == d.to_set().contains(x) by {
            if c.contains(x) {
                let k = choose|k: int| 0 <= k < c.len() && c[k] == x;
                precedes_irreflexive(x);
                assert(precedes(a[k], a[a.len() - 1]));
                assert(a.to_set().contains(x));
                assert(b.contains(x));
                let l = choose|l: int| 0 <= l < b.len() && b[l] == x;
                assert(d[l] == x);
            }
            if d.contains(x) {
                let k = choose|k: int| 0 <= k < d.len() && d[k] == x;
                precedes_irreflexive(x);
                assert(precedes(b[k], b[b.len() - 1]));
                assert(b.to_set().contains(x));
                assert(a.contains(x));
                let l = choose|l: int| 0 <= l < a.len() && a[l] == x;
                assert(c[l] == x);
            }
        }
        assert(c.to_set() =~= d.to_set());
        assert(strictly_ascending(c));
        assert(strictly_ascending(d));
        ascending_lists_agree(c, d);
        assert(a =~= c.push(a.last()));
        assert(b =~= d.push(b.last()));
    }
}

// ── Lower case ───────────────────────────────────────────────────────────────

/// The lower case of a text, by the Unicode mappings of `str::to_lowercase`.
pub uninterp spec fn lowercase(s: Seq<char>) -> Seq<char>;

pub open spec fn is_ascii_text(s: Seq<char>) -> bool {
    forall|i: int| 0 <= i < s.len() ==> (#[trigger] s[i]) as int <= 127
}

pub open spec fn no_ascii_upper(s: Seq<char>) -> bool {
    forall|i: int| 0 <= i < s.len() ==> !text::is_ascii_upper(#[trigger] s[i])
}

/// Where the text is ASCII, its lower case has `a` to `z` for `A` to `Z` and is
/// else the same.
pub open spec fn ascii_is_lowered(s: Seq<char>) -> bool {
    is_ascii_text(s) ==> lowercase(s) == text::ascii_lower_all(s)
}

/// `str::to_lowercase`. The result is named `lowercase`, since the Unicode
/// mappings take pages to state. Of it the contract claims that it is in lower
/// case: no ASCII upper case letter is left, and what is in lower case stays as it
/// is. On ASCII text the letters `A` to `Z` become `a` to `z` and everything else
/// stays.
#[verifier::external_body]
pub(crate) fn to_lower(s: &str) -> (r: String)
    ensures
        r@ == lowercase(s@),
        no_ascii_upper(r@),
        lowercase(r@) == r@,
        is_ascii_text(s@) ==> r@ == text::ascii_lower_all(s@),
{
    s.to_lowercase()
}

// ── Sorting by name ──────────────────────────────────────────────────────────

/// A thing that has a name to be sorted by.
pub trait Named: Sized {
    spec fn label(&self) -> Seq<char>;

    fn label_text(&self) -> (r: &str)
        ensures
            r@ == self.label(),
    ;
}

/// The lower case names, in order.
pub open spec fn keys<T: Named>(s: Seq<T>) -> Seq<Seq<char>> {
    Seq::new(s.len(), |i: int| lowercase(s[i].label()))
}

/// The things whose lower case name is `k`, in order.
pub open spec fn keyed<T: Named>(s: Seq<T>, k: Seq<char>) -> Seq<T> {
    s.filter(|x: T| lowercase(x.label()) == k)
}

/// No text comes after a later one.
pub open spec fn ascending(s: Seq<Seq<char>>) -> bool {
    forall|i: int, j: int| 0 <= i < j < s.len() ==> !precedes(#[trigger] s[j], #[trigger] s[i])
}

/// `r` holds the things of `s` in the order of their lower case names; things
/// with the same lower case name stay in the order they had.
pub open spec fn sorted_by_name<T: Named>(s: Seq<T>, r: Seq<T>) -> bool {
    &&& r.len() == s.len()
    &&& ascending(keys(r))
    &&& forall|k: Seq<char>| #[trigger] keyed(r, k) == keyed(s, k)
}

proof fn lemma_keyed_none<T: Named>(s: Seq<T>, k: Seq<char>)
    requires
        forall|i: int| 0 <= i < s.len() ==> lowercase(#[trigger] s[i].label()) != k,
    ensures
        keyed(s, k) == Seq::<T>::empty(),
    decreases s.len(),
{
    reveal(Seq::filter);
    if s.len() > 0 {
        assert forall|i: int| 0 <= i < s.drop_last().len() implies lowercase(
            #[trigger] s.drop_last()[i].label(),
        ) != k by {
            assert(s.drop_last()[i] == s[i]);
        }
        lemma_keyed_none(s.drop_last(), k);
        assert(lowercase(s[s.len() - 1].label()) != k);
    }
}

/// Where everything behind `pos` has a later name, inserting `x` there keeps
/// the things of each name in order, `x` as the last of its own.
proof fn lemma_keyed_insert<T: Named>(s: Seq<T>, pos: int, x: T, k: Seq<char>)
    requires
        0 <= pos <= s.len(),
        forall|i: int|
            pos <= i < s.len() ==> lowercase(#[trigger] s[i].label()) != lowercase(x.label()),
    ensures
        keyed(s.insert(pos, x), k) == keyed(s.push(x), k),
{
    let f = |y: T| lowercase(y.label()) == k;
    let front = s.take(pos);
    let back = s.skip(pos);
    assert(s.insert(pos, x) =~= front + seq![x] + back);
    assert(s.push(x) =~= front + back + seq![x]);
    Seq::filter_distributes_over_add(front + seq![x], back, f);
    Seq::filter_distributes_over_add(front, seq![x], f);
    Seq::filter_distributes_over_add(front + back, seq![x], f);
    Seq::filter_distributes_over_add(front, back, f);
    if lowercase(x.label()) == k {
        assert forall|i: int| 0 <= i < back.len() implies lowercase(#[trigger] back[i].label())
            != k by {
            assert(back[i] == s[pos + i]);
        }
        lemma_keyed_none(back, k);
        assert(keyed(s.insert(pos, x), k) =~= keyed(s.push(x), k));
    } else {
        let one = seq![x];
        assert forall|i: int| 0 <= i < one.len() implies lowercase(#[trigger] one[i].label())
            != k by {}
        lemma_keyed_none(one, k);
        assert(keyed(s.insert(pos, x), k) =~= keyed(s.push(x), k));
    }
}

/// Sorts things by their lower case names, keeping the order of equal ones.
pub fn sort_by_name<T: Named>(v: Vec<T>) -> (r: Vec<T>)
    ensures
        sorted_by_name(v@, r@),
        forall|i: int| 0 <= i < v@.len() ==> ascii_is_lowered(#[trigger] v@[i].label()),
{
    let mut rest = v;
    let mut r: Vec<T> = Vec::new();
    let mut ks: Vec<String> = Vec::new();
    assert(rest@ =~= v@.skip(0));
    while rest.len() > 0
        invariant
            rest@ == v@.skip(v@.len() - rest@.len()),
            rest@.len() <= v@.len(),
            r@.len() == v@.len() - rest@.len(),
            text::texts(ks@) == keys(r@),
            ascending(keys(r@)),
            forall|i: int|
                0 <= i < v@.len() - rest@.len() ==> ascii_is_lowered(#[trigger] v@[i].label()),
            forall|k: Seq<char>| #[trigger]
                keyed(r@, k) == keyed(v@.take(v@.len() - rest@.len()), k),
        decreases rest@.len(),
    {
        let ghost done = v@.len() - rest@.len();
        let x = rest.remove(0);
        assert(x == v@[done as int]);
        assert(rest@ =~= v@.skip(done + 1));
        let key = to_lower(x.label_text());
        let mut pos: usize = r.len();
        assert(text::texts(ks@).len() == keys(r@).len());
        while pos > 0 && text_precedes(key.as_str(), ks[pos - 1].as_str())
            invariant
                pos <= r@.len(),
                r@.len() == ks@.len(),
                text::texts(ks@) == keys(r@),
                forall|i: int| pos <= i < r@.len() ==> precedes(key@, #[trigger] keys(r@)[i]),
            ensures
                pos <= r@.len(),
                forall|i: int| pos <= i < r@.len() ==> precedes(key@, #[trigger] keys(r@)[i]),
                pos > 0 ==> !precedes(key@, keys(r@)[pos - 1]),
            decreases pos,
        {
            assert(text::texts(ks@)[pos - 1] == ks@[pos - 1]@);
            pos -= 1;
        }
        assert(pos > 0 ==> text::texts(ks@)[pos - 1] == ks@[pos - 1]@);
        let ghost before = r@;
        let ghost bk = keys(before);
        proof {
            assert forall|i: int| pos <= i < before.len() implies lowercase(
                #[trigger] before[i].label(),
            ) != lowercase(x.label()) by {
                assert(bk[i] == lowercase(before[i].label()));
                precedes_irreflexive(key@);
            }
            assert forall|i: int| 0 <= i < pos implies !precedes(key@, #[trigger] bk[i]) by {
                if precedes(key@, bk[i]) && i < pos - 1 {
                    precedes_total(bk[i], bk[pos - 1]);
                    if precedes(bk[i], bk[pos - 1]) {
                        precedes_transitive(key@, bk[i], bk[pos - 1]);
                    }
                    assert(!precedes(bk[pos - 1], bk[i]));
                }
            }
        }
        let ghost old_ks = ks@;
        r.insert(pos, x);
        ks.insert(pos, key);
        proof {
            assert forall|i: int| 0 <= i < r@.len() implies text::texts(ks@)[i] == keys(
                r@,
            )[i] by {
                if i < pos {
                    assert(text::texts(old_ks)[i] == bk[i]);
                } else if i > pos {
                    assert(text::texts(old_ks)[i - 1] == bk[i - 1]);
                }
            }
            assert(text::texts(ks@) =~= keys(r@));
            let nk = keys(r@);
            assert forall|i: int, j: int| 0 <= i < j < nk.len() implies !precedes(
                #[trigger] nk[j],
                #[trigger] nk[i],
            ) by {
                let oi = if i < pos { i } else { i - 1 };
                let oj = if j < pos { j } else { j - 1 };
                if i == pos {
                    assert(nk[j] == bk[oj]);
                    precedes_asymmetric(key@, bk[oj]);
                } else if j == pos {
                    assert(nk[i] == bk[oi]);
                } else {
                    assert(nk[i] == bk[oi]);
                    assert(nk[j] == bk[oj]);
                    assert(!precedes(bk[oj], bk[oi]));
                }
            }
            let t = v@.take(done + 1);
            assert forall|k: Seq<char>| #[trigger] keyed(r@, k) == keyed(t, k) by {
                let f = |y: T| lowercase(y.label()) == k;
                lemma_keyed_insert(before, pos as int, x, k);
                assert(keyed(before, k) == keyed(v@.take(done as int), k));
                assert(t =~= v@.take(done as int) + seq![x]);
                assert(before.push(x) =~= before + seq![x]);
                Seq::filter_distributes_over_add(v@.take(done as int), seq![x], f);
                Seq::filter_distributes_over_add(before, seq![x], f);
            }
        }
    }
    assert(v@.take(v@.len() as int) =~= v@);
    r
}

// ── What the order is ────────────────────────────────────────────────────────

/// Two texts are ordered by the first character in which they differ, and a text comes
/// before those that go on behind it.
pub proof fn first_difference_decides(
    p: Seq<char>,
    c: char,
    a: Seq<char>,
    d: char,
    b: Seq<char>,
)
    requires
        c != d,
    ensures
        precedes(p.push(c) + a, p.push(d) + b) <==> c < d,
        precedes(p, p.push(c) + a),
        !precedes(p.push(c) + a, p),
    decreases p.len(),
{
    let x = p.push(c) + a;
    let y = p.push(d) + b;
    if p.len() == 0 {
        assert(x[0] == c && y[0] == d);
    } else {
        let q = p.drop_first();
        first_difference_decides(q, c, a, d, b);
        assert(x[0] == p[0] && y[0] == p[0]);
        assert(x.drop_first() =~= q.push(c) + a);
        assert(y.drop_first() =~= q.push(d) + b);
    }
}

/// Of two things in a list that is sorted by name, the lower case name of the first does
/// not come after that of the second; and the list holds what it was made of.
pub proof fn sorted_lists_ascend<T: Named>(s: Seq<T>, r: Seq<T>, i: int, j: int, x: T)
    requires
        sorted_by_name(s, r),
        0 <= i < j < r.len(),
    ensures
        !precedes(lowercase(r[j].label()), lowercase(r[i].label())),
        r.contains(x) <==> s.contains(x),
{
    let ks = keys(r);
    assert(!precedes(ks[j], ks[i]));
    let k = lowercase(x.label());
    let f = |y: T| lowercase(y.label()) == k;
    assert(keyed(r, k) == keyed(s, k));
    lemma_in_filter(r, f, x);
    lemma_in_filter(s, f, x);
}

proof fn lemma_in_filter<T>(v: Seq<T>, f: spec_fn(T) -> bool, x: T)
    requires
        f(x),
    ensures
        v.filter(f).contains(x) <==> v.contains(x),
    decreases v.len(),
{
    reveal(Seq::filter);
    if v.len() > 0 {
        let front = v.drop_last();
        let g = front.filter(f);
        let h = v.filter(f);
        lemma_in_filter(front, f, x);
        if front.contains(x) {
            let i = front.index_of(x);
            assert(v[i] == x);
        }
        if v.contains(x) {
            let i = v.index_of(x);
            if i < front.len() {
                assert(front[i] == x);
            }
        }
        if g.contains(x) {
            let i = g.index_of(x);
            assert(h[i] == x);
        }
        if h.contains(x) {
            let i = h.index_of(x);
            if i < g.len() {
                assert(g[i] == x);
            } else {
                assert(v[v.len() - 1] == x);
            }
        }
        if v.last() == x {
            assert(h[h.len() - 1] == x);
            assert(v[v.len() - 1] == x);
        }
    }
}

/// In a strictly ascending list each text comes before the later ones, so none stands
/// twice; in an ascending one no text comes after a later one.
pub proof fn ascending_lists_ascend(s: Seq<Seq<char>>, i: int, j: int)
    requires
        0 <= i < j < s.len(),
    ensures
        strictly_ascending(s) ==> precedes(s[i], s[j]) && s[i] != s[j],
        ascending(s) ==> !precedes(s[j], s[i]),
        strictly_ascending(s) ==> ascending(s),
{
    precedes_irreflexive(s[i]);
    if strictly_ascending(s) {
        assert forall|a: int, b: int| 0 <= a < b < s.len() implies !precedes(
            #[trigger] s[b],
            #[trigger] s[a],
        ) by {
            precedes_asymmetric(s[a], s[b]);
        }
    }
}

/// Things of the same lower case name stand in a sorted list as they stood before.
pub proof fn equal_names_keep_their_order<T: Named>(s: Seq<T>, r: Seq<T>, k: Seq<char>)
    requires
        sorted_by_name(s, r),
    ensures
        r.filter(|x: T| lowercase(x.label()) == k) == s.filter(|x: T| lowercase(x.label()) == k),
        r.len() == s.len(),
{
    assert(keyed(r, k) == keyed(s, k));
}

} // verus!
