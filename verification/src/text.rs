//! Text as sequences of characters: trimming, searching, splitting, ordering.
//!
//! Working text is a `&[char]`; what the other modules keep is a `String`.
//! Every operation has a spec function that says what it computes.

use vstd::prelude::*;
use vstd::slice::slice_subrange;

verus! {

/// `String::push` appends the character at the end of the text.
pub assume_specification[ String::push ](s: &mut String, c: char)
    ensures
        final(s)@ == old(s)@.push(c),
;

// ── Conversions ──────────────────────────────────────────────────────────────

/// The characters of `s`, in order.
pub fn chars_of(s: &str) -> (r: Vec<char>)
    ensures
        r@ == s@,
{
    let mut r: Vec<char> = Vec::new();
    for c in it: s.chars()
        invariant
            it.seq() == s@,
            r@ == s@.take(it.index() as int),
    {
        r.push(c);
        assert(s@.take(it.index() as int).push(c) =~= s@.take(it.index() + 1));
    }
    assert(s@.take(s@.len() as int) =~= s@);
    r
}

/// The text made of the characters `cs`.
pub fn text_of(cs: &[char]) -> (r: String)
    ensures
        r@ == cs@,
{
    let mut r = String::new();
    for i in 0..cs.len()
        invariant
            r@ == cs@.take(i as int),
    {
        r.push(cs[i]);
        assert(cs@.take(i as int).push(cs[i as int]) =~= cs@.take(i + 1));
    }
    assert(cs@.take(cs@.len() as int) =~= cs@);
    r
}

/// Whether the two texts are the same.
pub fn same_text(a: &str, b: &str) -> (r: bool)
    ensures
        r == (a@ == b@),
{
    a.to_owned() == b.to_owned()
}

/// Whether the characters `cs` spell the text `t`.
pub fn spells(cs: &[char], t: &str) -> (r: bool)
    ensures
        r == (cs@ == t@),
{
    let tc = chars_of(t);
    if cs.len() != tc.len() {
        return false;
    }
    for i in 0..cs.len()
        invariant
            cs@.len() == tc@.len(),
            forall|j: int| 0 <= j < i ==> cs@[j] == tc@[j],
            tc@ == t@,
    {
        if cs[i] != tc[i] {
            return false;
        }
    }
    assert(cs@ =~= tc@);
    true
}

/// The text of the views of a list of strings.
pub open spec fn texts(v: Seq<String>) -> Seq<Seq<char>> {
    Seq::new(v.len(), |i: int| v[i]@)
}

/// Whether `name` is among the texts `v`.
pub fn is_among(v: &[String], name: &str) -> (r: bool)
    ensures
        r == texts(v@).contains(name@),
{
    for i in 0..v.len()
        invariant
            forall|j: int| 0 <= j < i ==> texts(v@)[j] != name@,
    {
        assert(texts(v@)[i as int] == v@[i as int]@);
        if same_text(v[i].as_str(), name) {
            return true;
        }
    }
    assert(texts(v@).len() == v@.len());
    false
}

/// The view of an optional string.
pub open spec fn opt_text(s: Option<String>) -> Option<Seq<char>> {
    match s {
        Some(t) => Some(t@),
        None => None,
    }
}

/// The view of an optional string slice.
pub open spec fn opt_str(s: Option<&str>) -> Option<Seq<char>> {
    match s {
        Some(t) => Some(t@),
        None => None,
    }
}

// ── Character classes ────────────────────────────────────────────────────────

/// The Unicode property White_Space.
pub open spec fn is_white(c: char) -> bool {
    let n = c as int;
    ||| 9 <= n <= 13
    ||| n == 0x20
    ||| n == 0x85
    ||| n == 0xA0
    ||| n == 0x1680
    ||| 0x2000 <= n <= 0x200A
    ||| n == 0x2028
    ||| n == 0x2029
    ||| n == 0x202F
    ||| n == 0x205F
    ||| n == 0x3000
}

/// An ASCII decimal digit.
pub open spec fn is_digit(c: char) -> bool {
    '0' <= c <= '9'
}

pub open spec fn is_ascii_lower(c: char) -> bool {
    'a' <= c <= 'z'
}

pub open spec fn is_ascii_upper(c: char) -> bool {
    'A' <= c <= 'Z'
}

/// An ASCII letter or digit.
pub open spec fn is_alnum(c: char) -> bool {
    is_digit(c) || is_ascii_lower(c) || is_ascii_upper(c)
}

/// An ASCII hexadecimal digit.
pub open spec fn is_hex(c: char) -> bool {
    is_digit(c) || 'a' <= c <= 'f' || 'A' <= c <= 'F'
}

/// ASCII upper case letters become lower case; everything else stays.
pub open spec fn ascii_lower(c: char) -> char {
    if is_ascii_upper(c) {
        (c as int + 32) as char
    } else {
        c
    }
}

/// `ascii_lower` on every character.
pub open spec fn ascii_lower_all(s: Seq<char>) -> Seq<char> {
    Seq::new(s.len(), |i: int| ascii_lower(s[i]))
}

pub fn char_is_white(c: char) -> (r: bool)
    ensures
        r == is_white(c),
{
    let n: u32 = c as u32;
    (9 <= n && n <= 13) || n == 0x20 || n == 0x85 || n == 0xA0 || n == 0x1680 || (0x2000 <= n && n
        <= 0x200A) || n == 0x2028 || n == 0x2029 || n == 0x202F || n == 0x205F || n == 0x3000
}

pub fn char_is_digit(c: char) -> (r: bool)
    ensures
        r == is_digit(c),
{
    let n: u32 = c as u32;
    48 <= n && n <= 57
}

pub fn char_is_alnum(c: char) -> (r: bool)
    ensures
        r == is_alnum(c),
{
    let n: u32 = c as u32;
    (48 <= n && n <= 57) || (97 <= n && n <= 122) || (65 <= n && n <= 90)
}

pub fn char_is_hex(c: char) -> (r: bool)
    ensures
        r == is_hex(c),
{
    let n: u32 = c as u32;
    (48 <= n && n <= 57) || (97 <= n && n <= 102) || (65 <= n && n <= 70)
}

pub fn char_ascii_lower(c: char) -> (r: char)
    ensures
        r == ascii_lower(c),
{
    let n: u32 = c as u32;
    if 65 <= n && n <= 90 {
        let b: u8 = n as u8 + 32;
        b as char
    } else {
        c
    }
}

// ── Trimming ─────────────────────────────────────────────────────────────────

/// What a trim takes away.
#[derive(Clone, Copy, Debug)]
pub enum Pad {
    /// Unicode white space.
    White,
    /// One character.
    One(char),
    /// Either of two characters.
    Either(char, char),
}

impl Pad {
    pub open spec fn has(self, c: char) -> bool {
        match self {
            Pad::White => is_white(c),
            Pad::One(a) => c == a,
            Pad::Either(a, b) => c == a || c == b,
        }
    }

    pub fn holds(self, c: char) -> (r: bool)
        ensures
            r == self.has(c),
    {
        match self {
            Pad::White => char_is_white(c),
            Pad::One(a) => c == a,
            Pad::Either(a, b) => c == a || c == b,
        }
    }
}

/// `s` without the longest run of `pad` at its start.
pub open spec fn trim_left(s: Seq<char>, pad: Pad) -> Seq<char>
    decreases s.len(),
{
    if s.len() > 0 && pad.has(s[0]) {
        trim_left(s.drop_first(), pad)
    } else {
        s
    }
}

/// `s` without the longest run of `pad` at its end.
pub open spec fn trim_right(s: Seq<char>, pad: Pad) -> Seq<char>
    decreases s.len(),
{
    if s.len() > 0 && pad.has(s.last()) {
        trim_right(s.drop_last(), pad)
    } else {
        s
    }
}

/// `s` without the runs of `pad` at both ends.
pub open spec fn trim_both(s: Seq<char>, pad: Pad) -> Seq<char> {
    trim_right(trim_left(s, pad), pad)
}

/// `s` without white space at both ends.
pub open spec fn trim(s: Seq<char>) -> Seq<char> {
    trim_both(s, Pad::White)
}

/// What `trim_left` leaves is an end of the text that does not begin with `pad`.
pub proof fn lemma_trim_left(s: Seq<char>, pad: Pad)
    ensures
        trim_left(s, pad).len() <= s.len(),
        trim_left(s, pad) == s.skip(s.len() - trim_left(s, pad).len()),
        trim_left(s, pad).len() > 0 ==> !pad.has(trim_left(s, pad)[0]),
        forall|i: int| 0 <= i < s.len() - trim_left(s, pad).len() ==> pad.has(#[trigger] s[i]),
    decreases s.len(),
{
    if s.len() > 0 && pad.has(s[0]) {
        let t = s.drop_first();
        lemma_trim_left(t, pad);
        assert(trim_left(s, pad) =~= s.skip(s.len() - trim_left(s, pad).len()));
        assert forall|i: int| 0 <= i < s.len() - trim_left(s, pad).len() implies pad.has(
            #[trigger] s[i],
        ) by {
            if i > 0 {
                assert(pad.has(t[i - 1]));
            }
        }
    } else {
        assert(s.skip(0) =~= s);
    }
}

/// What `trim_right` leaves is a start of the text that does not end in `pad`.
pub proof fn lemma_trim_right(s: Seq<char>, pad: Pad)
    ensures
        trim_right(s, pad).len() <= s.len(),
        trim_right(s, pad) == s.take(trim_right(s, pad).len() as int),
        trim_right(s, pad).len() > 0 ==> !pad.has(trim_right(s, pad).last()),
        forall|i: int| trim_right(s, pad).len() <= i < s.len() ==> pad.has(#[trigger] s[i]),
    decreases s.len(),
{
    if s.len() > 0 && pad.has(s.last()) {
        let t = s.drop_last();
        lemma_trim_right(t, pad);
        assert(trim_right(s, pad) =~= s.take(trim_right(s, pad).len() as int));
        assert forall|i: int| trim_right(s, pad).len() <= i < s.len() implies pad.has(
            #[trigger] s[i],
        ) by {
            if i < t.len() {
                assert(pad.has(t[i]));
            }
        }
    } else {
        assert(s.take(s.len() as int) =~= s);
    }
}

pub fn trimmed_left<'a>(s: &'a [char], pad: Pad) -> (r: &'a [char])
    ensures
        r@ == trim_left(s@, pad),
{
    let mut i: usize = 0;
    assert(s@.skip(0) =~= s@);
    while i < s.len() && pad.holds(s[i])
        invariant
            i <= s@.len(),
            trim_left(s@.skip(i as int), pad) == trim_left(s@, pad),
        ensures
            i <= s@.len(),
            i < s@.len() ==> !pad.has(s@[i as int]),
            trim_left(s@.skip(i as int), pad) == trim_left(s@, pad),
        decreases s@.len() - i,
    {
        assert(s@.skip(i as int).drop_first() =~= s@.skip(i + 1));
        i += 1;
    }
    let r = slice_subrange(s, i, s.len());
    assert(r@ =~= s@.skip(i as int));
    r
}

pub fn trimmed_right<'a>(s: &'a [char], pad: Pad) -> (r: &'a [char])
    ensures
        r@ == trim_right(s@, pad),
{
    let mut n: usize = s.len();
    assert(s@.take(n as int) =~= s@);
    while n > 0 && pad.holds(s[n - 1])
        invariant
            n <= s@.len(),
            trim_right(s@.take(n as int), pad) == trim_right(s@, pad),
        ensures
            n <= s@.len(),
            n > 0 ==> !pad.has(s@[n - 1]),
            trim_right(s@.take(n as int), pad) == trim_right(s@, pad),
        decreases n,
    {
        assert(s@.take(n as int).drop_last() =~= s@.take(n - 1));
        n -= 1;
    }
    let r = slice_subrange(s, 0, n);
    assert(r@ =~= s@.take(n as int));
    r
}

pub fn trimmed_both<'a>(s: &'a [char], pad: Pad) -> (r: &'a [char])
    ensures
        r@ == trim_both(s@, pad),
{
    trimmed_right(trimmed_left(s, pad), pad)
}

pub fn trimmed<'a>(s: &'a [char]) -> (r: &'a [char])
    ensures
        r@ == trim(s@),
{
    trimmed_both(s, Pad::White)
}

// ── Prefixes, suffixes, occurrences ──────────────────────────────────────────

pub open spec fn starts_with(s: Seq<char>, p: Seq<char>) -> bool {
    p.len() <= s.len() && s.take(p.len() as int) == p
}

pub open spec fn ends_with(s: Seq<char>, p: Seq<char>) -> bool {
    p.len() <= s.len() && s.skip(s.len() - p.len()) == p
}

/// What follows the prefix `p` of `s`, where `s` begins with `p`.
pub open spec fn strip_prefix(s: Seq<char>, p: Seq<char>) -> Option<Seq<char>> {
    if starts_with(s, p) {
        Some(s.skip(p.len() as int))
    } else {
        None
    }
}

/// `s` without `p`, as often as `s` begins with it.
pub open spec fn strip_prefixes(s: Seq<char>, p: Seq<char>) -> Seq<char>
    decreases s.len(),
{
    if p.len() > 0 && starts_with(s, p) {
        strip_prefixes(s.skip(p.len() as int), p)
    } else {
        s
    }
}

/// `p` stands in `s` at position `i`.
pub open spec fn occurs_at(s: Seq<char>, p: Seq<char>, i: int) -> bool {
    0 <= i && i + p.len() <= s.len() && s.subrange(i, i + p.len()) == p
}

/// The first position at or after `i` at which `p` stands in `s`.
pub open spec fn find_from(s: Seq<char>, p: Seq<char>, i: int) -> Option<int>
    decreases s.len() + 1 - i,
{
    if i < 0 || i + p.len() > s.len() {
        None
    } else if occurs_at(s, p, i) {
        Some(i)
    } else {
        find_from(s, p, i + 1)
    }
}

/// The first position at which `p` stands in `s`.
pub open spec fn find(s: Seq<char>, p: Seq<char>) -> Option<int> {
    find_from(s, p, 0)
}

/// The first position at or after `i` of the character `c` in `s`.
pub open spec fn find_char_from(s: Seq<char>, c: char, i: int) -> Option<int>
    decreases s.len() - i,
{
    if i < 0 || i >= s.len() {
        None
    } else if s[i] == c {
        Some(i)
    } else {
        find_char_from(s, c, i + 1)
    }
}

/// The first position of the character `c` in `s`.
pub open spec fn find_char(s: Seq<char>, c: char) -> Option<int> {
    find_char_from(s, c, 0)
}

/// The last position before `n` of the character `c` in `s`.
pub open spec fn rfind_char_before(s: Seq<char>, c: char, n: int) -> Option<int>
    decreases n,
{
    if n <= 0 || n > s.len() {
        None
    } else if s[n - 1] == c {
        Some(n - 1)
    } else {
        rfind_char_before(s, c, n - 1)
    }
}

/// The last position of the character `c` in `s`.
pub open spec fn rfind_char(s: Seq<char>, c: char) -> Option<int> {
    rfind_char_before(s, c, s.len() as int)
}

/// What stands before and after the first occurrence of `p` in `s`.
pub open spec fn split_once(s: Seq<char>, p: Seq<char>) -> Option<(Seq<char>, Seq<char>)> {
    match find(s, p) {
        Some(i) => Some((s.take(i), s.skip(i + p.len()))),
        None => None,
    }
}

/// What `find_from` gives: the first occurrence, where there is one.
pub proof fn lemma_find_from(s: Seq<char>, p: Seq<char>, i: int)
    requires
        0 <= i,
    ensures
        find_from(s, p, i) matches Some(k) ==> i <= k && occurs_at(s, p, k) && forall|j: int|
            i <= j < k ==> !occurs_at(s, p, j),
        find_from(s, p, i) is None ==> forall|j: int| i <= j ==> !occurs_at(s, p, j),
    decreases s.len() + 1 - i,
{
    if i + p.len() <= s.len() && !occurs_at(s, p, i) {
        lemma_find_from(s, p, i + 1);
    }
}

/// What `find_char_from` gives: the first occurrence, where there is one.
pub proof fn lemma_find_char_from(s: Seq<char>, c: char, i: int)
    requires
        0 <= i,
    ensures
        find_char_from(s, c, i) matches Some(k) ==> i <= k < s.len() && s[k] == c && forall|j: int|
            i <= j < k ==> s[j] != c,
        find_char_from(s, c, i) is None ==> forall|j: int| i <= j < s.len() ==> s[j] != c,
    decreases s.len() - i,
{
    if i < s.len() && s[i] != c {
        lemma_find_char_from(s, c, i + 1);
    }
}

/// What `rfind_char_before` gives: the last occurrence, where there is one.
pub proof fn lemma_rfind_char_before(s: Seq<char>, c: char, n: int)
    requires
        0 <= n <= s.len(),
    ensures
        rfind_char_before(s, c, n) matches Some(k) ==> 0 <= k < n && s[k] == c && forall|j: int|
            k < j < n ==> s[j] != c,
        rfind_char_before(s, c, n) is None ==> forall|j: int| 0 <= j < n ==> s[j] != c,
    decreases n,
{
    if n > 0 && s[n - 1] != c {
        lemma_rfind_char_before(s, c, n - 1);
    }
}

/// Whether `p` stands in `s` at position `i`.
pub fn stands_at(s: &[char], p: &[char], i: usize) -> (r: bool)
    requires
        i <= s@.len(),
    ensures
        r == occurs_at(s@, p@, i as int),
{
    let n: usize = s.len();
    if p.len() > n - i {
        return false;
    }
    for k in 0..p.len()
        invariant
            n == s@.len(),
            i + p@.len() <= n,
            forall|j: int| 0 <= j < k ==> s@[i + j] == p@[j],
    {
        if s[i + k] != p[k] {
            assert(s@.subrange(i as int, i + p@.len())[k as int] != p@[k as int]);
            return false;
        }
    }
    assert(s@.subrange(i as int, i + p@.len()) =~= p@);
    true
}

pub fn begins_with(s: &[char], p: &str) -> (r: bool)
    ensures
        r == starts_with(s@, p@),
{
    let pc = chars_of(p);
    let r = stands_at(s, pc.as_slice(), 0);
    assert(p@.len() <= s@.len() ==> s@.take(p@.len() as int) =~= s@.subrange(0, p@.len() as int));
    r
}

pub fn finishes_with(s: &[char], p: &str) -> (r: bool)
    ensures
        r == ends_with(s@, p@),
{
    let pc = chars_of(p);
    if pc.len() > s.len() {
        return false;
    }
    let r = stands_at(s, pc.as_slice(), s.len() - pc.len());
    assert(s@.skip(s@.len() - p@.len()) =~= s@.subrange(s@.len() - p@.len(), s@.len() as int));
    r
}

pub fn without_prefix<'a>(s: &'a [char], p: &str) -> (r: Option<&'a [char]>)
    ensures
        r is Some == strip_prefix(s@, p@) is Some,
        r matches Some(t) ==> t@ == strip_prefix(s@, p@)->0,
{
    if begins_with(s, p) {
        let pc = chars_of(p);
        let r = slice_subrange(s, pc.len(), s.len());
        assert(r@ =~= s@.skip(p@.len() as int));
        Some(r)
    } else {
        None
    }
}

pub fn without_prefixes<'a>(s: &'a [char], p: &str) -> (r: &'a [char])
    ensures
        r@ == strip_prefixes(s@, p@),
{
    let pc = chars_of(p);
    if pc.len() == 0 {
        return s;
    }
    let n: usize = s.len();
    let mut i: usize = 0;
    assert(s@.skip(0) =~= s@);
    while stands_at(s, pc.as_slice(), i)
        invariant
            n == s@.len(),
            pc@ == p@,
            p@.len() > 0,
            i <= s@.len(),
            strip_prefixes(s@.skip(i as int), p@) == strip_prefixes(s@, p@),
        ensures
            i <= s@.len(),
            !occurs_at(s@, p@, i as int),
            strip_prefixes(s@.skip(i as int), p@) == strip_prefixes(s@, p@),
        decreases s@.len() - i,
    {
        let ghost t = s@.skip(i as int);
        assert(t.take(p@.len() as int) =~= s@.subrange(i as int, i + p@.len()));
        assert(t.skip(p@.len() as int) =~= s@.skip(i + p@.len()));
        i += pc.len();
    }
    let r = slice_subrange(s, i, s.len());
    assert(r@ =~= s@.skip(i as int));
    proof {
        if starts_with(r@, p@) {
            assert(r@.take(p@.len() as int) =~= s@.subrange(i as int, i + p@.len()));
        }
    }
    r
}

pub fn position(s: &[char], p: &str) -> (r: Option<usize>)
    ensures
        r is Some == find(s@, p@) is Some,
        r matches Some(i) ==> i == find(s@, p@)->0 && i + p@.len() <= s@.len(),
{
    let pc = chars_of(p);
    let mut i: usize = 0;
    while i <= s.len() && pc.len() <= s.len() - i
        invariant
            pc@ == p@,
            i <= s@.len() + 1,
            find(s@, p@) == find_from(s@, p@, i as int),
        decreases s@.len() + 1 - i,
    {
        if stands_at(s, pc.as_slice(), i) {
            return Some(i);
        }
        if i == s.len() {
            assert(find_from(s@, p@, i + 1) is None);
            return None;
        }
        i += 1;
    }
    None
}

pub fn has_text(s: &[char], p: &str) -> (r: bool)
    ensures
        r == find(s@, p@) is Some,
{
    position(s, p).is_some()
}

pub fn position_char(s: &[char], c: char) -> (r: Option<usize>)
    ensures
        r is Some == find_char(s@, c) is Some,
        r matches Some(i) ==> i == find_char(s@, c)->0 && i < s@.len(),
{
    for i in 0..s.len()
        invariant
            find_char(s@, c) == find_char_from(s@, c, i as int),
    {
        if s[i] == c {
            return Some(i);
        }
    }
    None
}

pub fn has_char(s: &[char], c: char) -> (r: bool)
    ensures
        r == s@.contains(c),
{
    let r = position_char(s, c);
    proof {
        lemma_find_char_from(s@, c, 0);
    }
    r.is_some()
}

pub fn last_position_char(s: &[char], c: char) -> (r: Option<usize>)
    ensures
        r is Some == rfind_char(s@, c) is Some,
        r matches Some(i) ==> i == rfind_char(s@, c)->0 && i < s@.len(),
{
    let mut n: usize = s.len();
    while n > 0
        invariant
            n <= s@.len(),
            rfind_char(s@, c) == rfind_char_before(s@, c, n as int),
        decreases n,
    {
        if s[n - 1] == c {
            return Some(n - 1);
        }
        n -= 1;
    }
    None
}

// ── Splitting ────────────────────────────────────────────────────────────────

/// The pieces of `s` between the characters `c`: one more than `c` occurs.
pub open spec fn split(s: Seq<char>, c: char) -> Seq<Seq<char>>
    decreases s.len(),
{
    proof {
        lemma_find_char_from(s, c, 0);
    }
    match find_char(s, c) {
        Some(i) => seq![s.take(i)] + split(s.skip(i + 1), c),
        None => seq![s],
    }
}

/// A line without the carriage return before its line feed.
pub open spec fn strip_cr(s: Seq<char>) -> Seq<char> {
    if s.len() > 0 && s.last() == '\r' {
        s.drop_last()
    } else {
        s
    }
}

/// The lines of `s`: ended by LF or CR LF, the last one possibly by nothing.
pub open spec fn lines(s: Seq<char>) -> Seq<Seq<char>>
    decreases s.len(),
{
    proof {
        lemma_find_char_from(s, '\n', 0);
    }
    if s.len() == 0 {
        seq![]
    } else {
        match find_char(s, '\n') {
            Some(i) => seq![strip_cr(s.take(i))] + lines(s.skip(i + 1)),
            None => seq![s],
        }
    }
}

/// The views of a list of character lists.
pub open spec fn rows(v: Seq<Vec<char>>) -> Seq<Seq<char>> {
    Seq::new(v.len(), |i: int| v[i]@)
}

/// A copy of the characters from `i` up to `j`.
pub fn copy_range(s: &[char], i: usize, j: usize) -> (r: Vec<char>)
    requires
        i <= j <= s@.len(),
    ensures
        r@ == s@.subrange(i as int, j as int),
{
    let mut r: Vec<char> = Vec::new();
    for k in i..j
        invariant
            i <= j <= s@.len(),
            r@ == s@.subrange(i as int, k as int),
    {
        r.push(s[k]);
        assert(s@.subrange(i as int, k as int).push(s@[k as int]) =~= s@.subrange(
            i as int,
            k + 1,
        ));
    }
    r
}

pub fn pieces(s: &[char], c: char) -> (r: Vec<Vec<char>>)
    ensures
        rows(r@) == split(s@, c),
{
    let mut r: Vec<Vec<char>> = Vec::new();
    let mut rest: &[char] = s;
    assert(rows(r@) + split(rest@, c) =~= split(s@, c));
    loop
        invariant
            rows(r@) + split(rest@, c) == split(s@, c),
        decreases rest@.len(),
    {
        match position_char(rest, c) {
            Some(i) => {
                let len: usize = rest.len();
                let piece = copy_range(rest, 0, i);
                let next = slice_subrange(rest, i + 1, len);
                let ghost before = rows(r@);
                r.push(piece);
                proof {
                    assert(piece@ =~= rest@.take(i as int));
                    assert(next@ =~= rest@.skip(i + 1));
                    assert(rows(r@) =~= before.push(rest@.take(i as int)));
                    assert(rows(r@) + split(next@, c) =~= before + (seq![rest@.take(i as int)]
                        + split(next@, c)));
                }
                rest = next;
            },
            None => {
                let piece = copy_range(rest, 0, rest.len());
                let ghost before = rows(r@);
                r.push(piece);
                proof {
                    assert(piece@ =~= rest@);
                    assert(rows(r@) =~= before + seq![rest@]);
                }
                return r;
            },
        }
    }
}

pub fn lines_of(s: &[char]) -> (r: Vec<Vec<char>>)
    ensures
        rows(r@) == lines(s@),
{
    let mut r: Vec<Vec<char>> = Vec::new();
    let mut rest: &[char] = s;
    assert(rows(r@) + lines(rest@) =~= lines(s@));
    while rest.len() > 0
        invariant
            rows(r@) + lines(rest@) == lines(s@),
        decreases rest@.len(),
    {
        match position_char(rest, '\n') {
            Some(i) => {
                let n: usize = if i > 0 && rest[i - 1] == '\r' {
                    i - 1
                } else {
                    i
                };
                let len: usize = rest.len();
                let piece = copy_range(rest, 0, n);
                let next = slice_subrange(rest, i + 1, len);
                let ghost before = rows(r@);
                r.push(piece);
                proof {
                    assert(piece@ =~= strip_cr(rest@.take(i as int)));
                    assert(next@ =~= rest@.skip(i + 1));
                    assert(rows(r@) =~= before.push(piece@));
                    assert(rows(r@) + lines(next@) =~= before + (seq![piece@] + lines(next@)));
                }
                rest = next;
            },
            None => {
                let piece = copy_range(rest, 0, rest.len());
                let ghost before = rows(r@);
                r.push(piece);
                proof {
                    assert(piece@ =~= rest@);
                    assert(rows(r@) =~= before + seq![rest@]);
                }
                return r;
            },
        }
    }
    assert(rows(r@) + lines(rest@) =~= rows(r@));
    r
}

/// The first word of `s`: what stands between white space, or the ends of `s`.
pub open spec fn first_word(s: Seq<char>) -> Option<Seq<char>> {
    let t = trim_left(s, Pad::White);
    if t.len() == 0 {
        None
    } else {
        Some(t.take(word_end(t, 0)))
    }
}

/// The first position at or after `i` of white space in `s`, or its end.
pub open spec fn word_end(s: Seq<char>, i: int) -> int
    decreases s.len() - i,
{
    if 0 <= i < s.len() && !is_white(s[i]) {
        word_end(s, i + 1)
    } else {
        i
    }
}

pub fn leading_word<'a>(s: &'a [char]) -> (r: Option<&'a [char]>)
    ensures
        r is Some == first_word(s@) is Some,
        r matches Some(w) ==> w@ == first_word(s@)->0,
{
    let t = trimmed_left(s, Pad::White);
    if t.len() == 0 {
        return None;
    }
    let mut i: usize = 0;
    while i < t.len() && !char_is_white(t[i])
        invariant
            i <= t@.len(),
            word_end(t@, 0) == word_end(t@, i as int),
        ensures
            i <= t@.len(),
            word_end(t@, 0) == i,
        decreases t@.len() - i,
    {
        i += 1;
    }
    let w = slice_subrange(t, 0, i);
    assert(w@ =~= t@.take(i as int));
    Some(w)
}

// ── What these functions say of a text ───────────────────────────────────────

/// The characters that are white space.
pub proof fn white_characters(c: char)
    ensures
        is_white(c) <==> c == '\t' || c == '\n' || c == '\u{b}' || c == '\u{c}' || c == '\r' || c
            == ' ' || c == '\u{85}' || c == '\u{a0}' || c == '\u{1680}' || '\u{2000}' <= c
            <= '\u{200a}' || c == '\u{2028}' || c == '\u{2029}' || c == '\u{202f}' || c
            == '\u{205f}' || c == '\u{3000}',
{
}

/// The letters of the alphabet by number: lower casing takes each upper case letter
/// to the lower case letter of the same number, and keeps every other character.
pub proof fn lower_case_keeps_the_letter(k: int, c: char)
    requires
        0 <= k < 26,
    ensures
        ascii_lower(('A' as int + k) as char) == ('a' as int + k) as char,
        !('A' <= c && c <= 'Z') ==> ascii_lower(c) == c,
        is_alnum(ascii_lower(c)) == is_alnum(c),
{
}

/// Lower casing changes no length, works on each character for itself and is the
/// same when it is done twice.
pub proof fn lower_case_is_by_character(s: Seq<char>, t: Seq<char>)
    ensures
        ascii_lower_all(s).len() == s.len(),
        ascii_lower_all(s + t) == ascii_lower_all(s) + ascii_lower_all(t),
        ascii_lower_all(ascii_lower_all(s)) == ascii_lower_all(s),
{
    assert(ascii_lower_all(s + t) =~= ascii_lower_all(s) + ascii_lower_all(t));
    assert(ascii_lower_all(ascii_lower_all(s)) =~= ascii_lower_all(s));
}

/// Every character of `s` is one that `pad` takes away.
pub open spec fn all_pad(s: Seq<char>, pad: Pad) -> bool {
    forall|i: int| 0 <= i < s.len() ==> pad.has(#[trigger] s[i])
}

/// What stands between two paddings is what a trim leaves, where it does not itself
/// begin or end with padding.
pub proof fn trimming_takes_the_padding(a: Seq<char>, s: Seq<char>, b: Seq<char>, pad: Pad)
    requires
        all_pad(a, pad),
        all_pad(b, pad),
        s.len() == 0 || !pad.has(s[0]) && !pad.has(s.last()),
    ensures
        trim_both(a + s + b, pad) == s,
        trim_left(a + s, pad) == s,
        trim_right(s + b, pad) == s,
{
    lemma_left_padding(a, s, pad);
    lemma_right_padding(s, b, pad);
    if s.len() == 0 {
        let all = a + s + b;
        lemma_left_padding(all, s, pad);
        assert(all + s =~= all);
        assert(trim_right(s, pad) =~= s);
    } else {
        assert((s + b)[0] == s[0]);
        lemma_left_padding(a, s + b, pad);
        assert(a + s + b =~= a + (s + b));
    }
}

/// The padding before a text that does not begin with it comes off.
pub proof fn lemma_left_padding(a: Seq<char>, s: Seq<char>, pad: Pad)
    requires
        all_pad(a, pad),
        s.len() == 0 || !pad.has(s[0]),
    ensures
        trim_left(a + s, pad) == s,
    decreases a.len(),
{
    if a.len() == 0 {
        assert(a + s =~= s);
    } else {
        let t = a.drop_first();
        assert forall|i: int| 0 <= i < t.len() implies pad.has(#[trigger] t[i]) by {
            assert(t[i] == a[i + 1]);
        }
        lemma_left_padding(t, s, pad);
        assert((a + s).drop_first() =~= t + s);
        assert((a + s)[0] == a[0]);
    }
}

/// The padding behind a text that does not end in it comes off.
pub proof fn lemma_right_padding(s: Seq<char>, b: Seq<char>, pad: Pad)
    requires
        all_pad(b, pad),
        s.len() == 0 || !pad.has(s.last()),
    ensures
        trim_right(s + b, pad) == s,
    decreases b.len(),
{
    if b.len() == 0 {
        assert(s + b =~= s);
    } else {
        let t = b.drop_last();
        assert forall|i: int| 0 <= i < t.len() implies pad.has(#[trigger] t[i]) by {
            assert(t[i] == b[i]);
        }
        lemma_right_padding(s, t, pad);
        assert((s + b).drop_last() =~= s + t);
        assert((s + b).last() == b.last());
        assert(pad.has(b[b.len() - 1]));
    }
}

/// A prefix that was put before a text is taken away again; a text that has lost a
/// prefix is the prefix and what is left; and likewise for suffixes.
pub proof fn prefixes_come_off(s: Seq<char>, p: Seq<char>, rest: Seq<char>)
    ensures
        strip_prefix(p + rest, p) == Some(rest),
        starts_with(p + rest, p),
        ends_with(rest + p, p),
        strip_prefix(s, p) matches Some(t) ==> s == p + t,
        starts_with(s, p) ==> s == p + s.skip(p.len() as int),
        ends_with(s, p) ==> s == s.take(s.len() - p.len()) + p,
        strip_prefix(s, p) is Some <==> starts_with(s, p),
{
    assert((p + rest).take(p.len() as int) =~= p);
    assert((p + rest).skip(p.len() as int) =~= rest);
    assert((rest + p).skip(rest.len() as int) =~= p);
    if starts_with(s, p) {
        assert(s =~= s.take(p.len() as int) + s.skip(p.len() as int));
    }
    if ends_with(s, p) {
        assert(s =~= s.take(s.len() - p.len()) + s.skip(s.len() - p.len()));
    }
}

/// `p`, `n` times in a row.
pub open spec fn repeated(p: Seq<char>, n: nat) -> Seq<char>
    decreases n,
{
    if n == 0 {
        seq![]
    } else {
        p + repeated(p, (n - 1) as nat)
    }
}

/// However often a prefix stands before a text that does not begin with it, all of
/// it is taken away, and nothing else.
pub proof fn repeated_prefixes_come_off(p: Seq<char>, n: nat, s: Seq<char>)
    requires
        p.len() > 0,
        !starts_with(s, p),
    ensures
        strip_prefixes(repeated(p, n) + s, p) == s,
    decreases n,
{
    let r = repeated(p, n);
    if n == 0 {
        assert(r + s =~= s);
    } else {
        let less = repeated(p, (n - 1) as nat);
        repeated_prefixes_come_off(p, (n - 1) as nat, s);
        assert((r + s).take(p.len() as int) =~= p);
        assert((r + s).skip(p.len() as int) =~= less + s);
    }
}

/// A text is cut at the first place at which the mark stands: the two parts and the
/// mark between them are the text, and the mark stands nowhere before. It is not
/// cut where the mark stands nowhere.
pub proof fn cut_at_the_first_mark(s: Seq<char>, p: Seq<char>)
    ensures
        split_once(s, p) matches Some(ab) ==> s == ab.0 + p + ab.1 && (forall|j: int|
            0 <= j < ab.0.len() ==> !occurs_at(s, p, j)),
        split_once(s, p) is None <==> forall|j: int| !occurs_at(s, p, j),
        find(s, p) matches Some(i) ==> occurs_at(s, p, i) && (forall|j: int|
            0 <= j < i ==> !occurs_at(s, p, j)),
        find(s, p) is None <==> forall|j: int| !occurs_at(s, p, j),
{
    lemma_find_from(s, p, 0);
    if let Some(i) = find(s, p) {
        assert(s =~= s.take(i) + s.subrange(i, i + p.len()) + s.skip(i + p.len()));
    }
}

/// The pieces with `c` between them.
pub open spec fn joined(v: Seq<Seq<char>>, c: char) -> Seq<char>
    decreases v.len(),
{
    if v.len() == 0 {
        seq![]
    } else if v.len() == 1 {
        v[0]
    } else {
        v[0].push(c) + joined(v.drop_first(), c)
    }
}

/// The pieces between the characters `c` hold no `c`, and with `c` between them they
/// are the text.
pub proof fn pieces_rejoin(s: Seq<char>, c: char)
    ensures
        split(s, c).len() > 0,
        joined(split(s, c), c) == s,
        forall|i: int| 0 <= i < split(s, c).len() ==> !(#[trigger] split(s, c)[i]).contains(c),
    decreases s.len(),
{
    lemma_find_char_from(s, c, 0);
    if let Some(k) = find_char(s, c) {
        let rest = s.skip(k + 1);
        let v = split(s, c);
        pieces_rejoin(rest, c);
        assert(v.drop_first() =~= split(rest, c));
        assert(s =~= s.take(k).push(c) + rest);
        assert forall|i: int| 0 <= i < v.len() implies !(#[trigger] v[i]).contains(c) by {
            if i > 0 {
                assert(v[i] == split(rest, c)[i - 1]);
            }
        }
    }
}

/// A line ends at the first line feed, which is not part of it, nor is a carriage
/// return before it; the last line needs no line feed; and an empty text has no lines.
pub proof fn lines_end_at_line_feeds(l: Seq<char>, rest: Seq<char>)
    requires
        !l.contains('\n'),
    ensures
        l.len() == 0 || l.last() != '\r' ==> lines(l.push('\n') + rest) == seq![l] + lines(rest),
        lines(l.push('\r').push('\n') + rest) == seq![l] + lines(rest),
        l.len() > 0 ==> lines(l) == seq![l],
        l.len() == 0 ==> lines(l) == Seq::<Seq<char>>::empty(),
{
    let a = l.push('\n') + rest;
    assert(a.take(l.len() as int) =~= l);
    lemma_first_feed(l, a);
    assert(a.skip(l.len() as int + 1) =~= rest);
    let m = l.push('\r');
    assert forall|i: int| 0 <= i < m.len() implies m[i] != '\n' by {
        if i < l.len() {
            assert(l.contains(l[i]));
        }
    }
    let b = m.push('\n') + rest;
    assert(b.take(m.len() as int) =~= m);
    lemma_first_feed(m, b);
    assert(b.skip(m.len() as int + 1) =~= rest);
    assert(m.drop_last() =~= l);
    lemma_find_char_from(l, '\n', 0);
}

proof fn lemma_first_feed(l: Seq<char>, s: Seq<char>)
    requires
        !l.contains('\n'),
        l.len() < s.len(),
        s.take(l.len() as int) == l,
        s[l.len() as int] == '\n',
    ensures
        find_char(s, '\n') == Some(l.len() as int),
{
    lemma_find_char_from(s, '\n', 0);
    let k = find_char(s, '\n')->0;
    if find_char(s, '\n') is Some && k < l.len() {
        assert(s.take(l.len() as int)[k] == s[k]);
        assert(l.contains(l[k]));
    }
}

/// The first word is the run without white space that follows the white space at the
/// start, up to white space or the end; only a text of white space has none.
pub proof fn first_word_stands_first(a: Seq<char>, w: Seq<char>, rest: Seq<char>)
    requires
        all_pad(a, Pad::White),
        forall|i: int| 0 <= i < w.len() ==> !is_white(#[trigger] w[i]),
        rest.len() == 0 || is_white(rest[0]),
    ensures
        w.len() > 0 ==> first_word(a + w + rest) == Some(w),
        first_word(a) is None,
{
    if w.len() > 0 {
        let t = w + rest;
        assert(t[0] == w[0]);
        lemma_left_padding(a, t, Pad::White);
        assert(a + w + rest =~= a + t);
        assert(t.take(w.len() as int) =~= w);
        lemma_word_end(t, w, 0);
    }
    lemma_left_padding(a, seq![], Pad::White);
    assert(a + Seq::<char>::empty() =~= a);
}

proof fn lemma_word_end(t: Seq<char>, w: Seq<char>, i: int)
    requires
        0 <= i <= w.len() <= t.len(),
        t.take(w.len() as int) == w,
        forall|j: int| 0 <= j < w.len() ==> !is_white(#[trigger] w[j]),
        w.len() < t.len() ==> is_white(t[w.len() as int]),
    ensures
        word_end(t, i) == w.len(),
    decreases w.len() - i,
{
    if i < w.len() {
        assert(t[i] == t.take(w.len() as int)[i]);
        lemma_word_end(t, w, i + 1);
    }
}

/// Pieces that hold no `c`, put together with `c` between them, are split again into
/// the same pieces.
pub proof fn joined_pieces_split(v: Seq<Seq<char>>, c: char)
    requires
        v.len() > 0,
        forall|i: int| 0 <= i < v.len() ==> !(#[trigger] v[i]).contains(c),
    ensures
        split(joined(v, c), c) == v,
    decreases v.len(),
{
    let s = joined(v, c);
    let n = v[0].len() as int;
    lemma_find_char_from(s, c, 0);
    if v.len() == 1 {
        if let Some(k) = find_char(s, c) {
            assert(v[0].contains(v[0][k]));
        }
        assert(v =~= seq![v[0]]);
    } else {
        let rest = v.drop_first();
        assert forall|i: int| 0 <= i < rest.len() implies !(#[trigger] rest[i]).contains(c) by {
            assert(rest[i] == v[i + 1]);
        }
        joined_pieces_split(rest, c);
        assert(s[n] == c);
        let k = find_char(s, c)->0;
        if k < n {
            assert(s[k] == v[0][k]);
            assert(v[0].contains(v[0][k]));
        }
        assert(s.take(n) =~= v[0]);
        assert(s.skip(n + 1) =~= joined(rest, c));
        assert(v =~= seq![v[0]] + rest);
    }
}

/// A trim leaves nothing of a text of white space, and something of any other.
pub proof fn only_white_space_is_blank(s: Seq<char>)
    ensures
        trim(s).len() > 0 <==> exists|i: int| 0 <= i < s.len() && !is_white(#[trigger] s[i]),
{
    let t = trim_left(s, Pad::White);
    lemma_trim_left(s, Pad::White);
    lemma_trim_right(t, Pad::White);
    if exists|i: int| 0 <= i < s.len() && !is_white(#[trigger] s[i]) {
        let i = choose|i: int| 0 <= i < s.len() && !is_white(#[trigger] s[i]);
        assert(!Pad::White.has(s[i]));
        assert(t.len() > 0);
        assert(!Pad::White.has(t[0]));
        if trim(s).len() == 0 {
            assert(Pad::White.has(t[0]));
        }
    }
    if trim(s).len() > 0 {
        assert(!is_white(t[0]));
        assert(t[0] == s[s.len() - t.len()]);
    }
}

/// The classes of ASCII characters.
pub proof fn ascii_classes(c: char)
    ensures
        is_digit(c) <==> '0' <= c && c <= '9',
        is_ascii_lower(c) <==> 'a' <= c && c <= 'z',
        is_ascii_upper(c) <==> 'A' <= c && c <= 'Z',
        is_alnum(c) <==> '0' <= c && c <= '9' || 'a' <= c && c <= 'z' || 'A' <= c && c <= 'Z',
        is_hex(c) <==> '0' <= c && c <= '9' || 'a' <= c && c <= 'f' || 'A' <= c && c <= 'F',
        Pad::White.has(c) <==> is_white(c),
        forall|a: char| #[trigger] Pad::One(a).has(c) <==> c == a,
        forall|a: char, b: char| #[trigger] Pad::Either(a, b).has(c) <==> c == a || c == b,
{
}

/// The views of texts are their characters, one text for each.
pub proof fn texts_say_their_characters(v: Seq<String>, r: Seq<Vec<char>>, s: String, i: int)
    ensures
        texts(v).len() == v.len() && rows(r).len() == r.len(),
        0 <= i < v.len() ==> texts(v)[i] == v[i]@,
        0 <= i < r.len() ==> rows(r)[i] == r[i]@,
        opt_text(Some(s)) == Some(s@),
        opt_text(None) is None && opt_str(None) is None,
{
}

} // verus!
