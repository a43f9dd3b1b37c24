//! Ids made from names, and names that are still free.

use vstd::prelude::*;
use crate::order;
use crate::text;
use crate::text::Pad;

verus! {

// ── Ids ──────────────────────────────────────────────────────────────────────

/// An ASCII letter or digit stays; any other character becomes a dash.
pub open spec fn dashed(s: Seq<char>) -> Seq<char> {
    Seq::new(
        s.len(),
        |i: int|
            if text::is_alnum(s[i]) {
                s[i]
            } else {
                '-'
            },
    )
}

/// The id of a name, of which `low` is the lower case: every character that is
/// no ASCII letter or digit becomes a dash, and the dashes at the ends go.
pub open spec fn id_of(low: Seq<char>) -> Seq<char> {
    text::trim_both(dashed(low), Pad::One('-'))
}

/// Made of lower case ASCII letters, digits and dashes, with no dash at an end.
pub open spec fn is_id(s: Seq<char>) -> bool {
    &&& forall|i: int|
        0 <= i < s.len() ==> text::is_digit(#[trigger] s[i]) || text::is_ascii_lower(s[i]) || s[i]
            == '-'
    &&& s.len() > 0 ==> s[0] != '-' && s.last() != '-'
}

/// What is made from a lower case text is an id.
pub proof fn id_of_is_id(low: Seq<char>)
    requires
        order::no_ascii_upper(low),
    ensures
        is_id(id_of(low)),
{
    let d = dashed(low);
    let pad = Pad::One('-');
    let l = text::trim_left(d, pad);
    text::lemma_trim_left(d, pad);
    text::lemma_trim_right(l, pad);
    let r = id_of(low);
    assert forall|i: int| 0 <= i < r.len() implies text::is_digit(#[trigger] r[i])
        || text::is_ascii_lower(r[i]) || r[i] == '-' by {
        assert(r[i] == l[i]);
        assert(l[i] == d[d.len() - l.len() + i]);
        assert(!text::is_ascii_upper(low[d.len() - l.len() + i]));
    }
    if r.len() > 0 {
        assert(r[0] == l[0]);
    }
}

/// An id stays as it is.
pub proof fn id_is_its_own_id(s: Seq<char>)
    requires
        is_id(s),
    ensures
        id_of(s) == s,
        text::ascii_lower_all(s) == s,
        order::is_ascii_text(s),
{
    assert(dashed(s) =~= s);
    assert(text::ascii_lower_all(s) =~= s);
    assert(text::trim_left(s, Pad::One('-')) == s);
}

/// An id is empty where the name has no ASCII letter and no digit.
pub proof fn id_is_empty_without_letters(low: Seq<char>)
    ensures
        id_of(low).len() == 0 <==> forall|i: int|
            0 <= i < low.len() ==> !text::is_alnum(#[trigger] low[i]),
{
    let d = dashed(low);
    let pad = Pad::One('-');
    let l = text::trim_left(d, pad);
    text::lemma_trim_left(d, pad);
    text::lemma_trim_right(l, pad);
    let r = id_of(low);
    if r.len() == 0 {
        assert forall|i: int| 0 <= i < low.len() implies !text::is_alnum(#[trigger] low[i]) by {
            let k = d.len() - l.len();
            if i < k {
                assert(pad.has(d[i]));
            } else {
                assert(pad.has(l[i - k]));
            }
        }
    } else {
        assert(l[0] == d[d.len() - l.len()]);
        assert(text::is_alnum(low[d.len() - l.len()]));
    }
}

/// The id of a name.
pub(crate) fn to_id(name: &str) -> (r: String)
    ensures
        r@ == id_of(order::lowercase(name@)),
        r@ == id_of(order::lowercase(order::lowercase(name@))),
        order::is_ascii_text(name@) ==> r@ == id_of(text::ascii_lower_all(name@)),
        order::ascii_is_lowered(name@),
        is_id(r@),
        is_id(name@) ==> r@ == name@,
{
    let low = order::to_lower(name);
    let cs = text::chars_of(low.as_str());
    let mut d: Vec<char> = Vec::new();
    for i in 0..cs.len()
        invariant
            d@ == dashed(cs@.take(i as int)),
    {
        d.push(
            if text::char_is_alnum(cs[i]) {
                cs[i]
            } else {
                '-'
            },
        );
        assert(d@ =~= dashed(cs@.take(i + 1)));
    }
    assert(cs@.take(cs@.len() as int) =~= cs@);
    proof {
        id_of_is_id(low@);
        if is_id(name@) {
            id_is_its_own_id(name@);
        }
    }
    text::text_of(text::trimmed_both(d.as_slice(), Pad::One('-')))
}

// ── Names that are free ──────────────────────────────────────────────────────

/// Among names that are all different, one more than are taken, one is free.
pub proof fn some_name_is_free(names: spec_fn(nat) -> Seq<char>, taken: Seq<Seq<char>>)
    requires
        forall|a: nat, b: nat| #[trigger] names(a) == #[trigger] names(b) ==> a == b,
    ensures
        exists|n: nat| n <= taken.len() && !taken.contains(#[trigger] names(n)),
{
    if forall|n: nat| n <= taken.len() ==> taken.contains(#[trigger] names(n)) {
        let some = Seq::new(taken.len() + 1, |i: int| names(i as nat));
        assert forall|i: int, j: int| 0 <= i < some.len() && 0 <= j < some.len() && i != j implies
            some[i] != some[j] by {
            if some[i] == some[j] {
                assert(names(i as nat) == names(j as nat));
            }
        }
        some.unique_seq_to_set();
        taken.lemma_cardinality_of_set();
        assert forall|x: Seq<char>| some.to_set().contains(x) implies taken.to_set().contains(
            x,
        ) by {
            let i = choose|i: int| 0 <= i < some.len() && some[i] == x;
            assert(taken.contains(names(i as nat)));
        }
        vstd::set_lib::lemma_len_subset(some.to_set(), taken.to_set());
    }
}

/// The id of a name has, between its first and its last letter or digit, one character
/// for each of the name: the letter or digit itself, or a dash. What stands before and
/// behind is left out.
pub proof fn ids_follow_the_name(a: Seq<char>, s: Seq<char>, b: Seq<char>, i: int)
    requires
        forall|j: int| 0 <= j < a.len() ==> !text::is_alnum(#[trigger] a[j]),
        forall|j: int| 0 <= j < b.len() ==> !text::is_alnum(#[trigger] b[j]),
        s.len() > 0,
        text::is_alnum(s[0]),
        text::is_alnum(s.last()),
        0 <= i < s.len(),
    ensures
        id_of(a + s + b).len() == s.len(),
        text::is_alnum(s[i]) ==> id_of(a + s + b)[i] == s[i],
        !text::is_alnum(s[i]) ==> id_of(a + s + b)[i] == '-',
{
    let d = dashed(a + s + b);
    let x = d.take(a.len() as int);
    let y = d.subrange(a.len() as int, a.len() as int + s.len());
    let z = d.skip(a.len() as int + s.len());
    assert(d =~= x + y + z);
    assert forall|j: int| 0 <= j < x.len() implies Pad::One('-').has(#[trigger] x[j]) by {
        assert((a + s + b)[j] == a[j]);
    }
    assert forall|j: int| 0 <= j < z.len() implies Pad::One('-').has(#[trigger] z[j]) by {
        assert((a + s + b)[a.len() + s.len() + j] == b[j]);
    }
    assert forall|j: int| 0 <= j < s.len() implies #[trigger] y[j] == (if text::is_alnum(s[j]) {
        s[j]
    } else {
        '-'
    }) by {
        assert((a + s + b)[a.len() + j] == s[j]);
    }
    assert(y.last() == s.last());
    text::trimming_takes_the_padding(x, y, z, Pad::One('-'));
}

} // verus!
