//! File names and the paths of the application's own files.
//!
//! The application's own paths are Unix paths, kept as bytes, since a directory
//! need not be named in UTF-8. File names that are read are text.

use vstd::prelude::*;
use vstd::slice::slice_subrange;
use vstd::utf8::{encode_scalar, encode_utf8};
use crate::text;

verus! {

// ── Directories ──────────────────────────────────────────────────────────────

/// `dirs::config_dir`: the bytes of the path of the user's configuration
/// directory, where it is known. It depends on the environment, so nothing is
/// claimed of it.
#[verifier::external_body]
pub(crate) fn config_dir() -> Option<Vec<u8>> {
    dirs::config_dir().map(|p| p.into_os_string().into_encoded_bytes())
}

/// `dirs::cache_dir`: the bytes of the path of the user's cache directory, where
/// it is known. It depends on the environment, so nothing is claimed of it.
#[verifier::external_body]
pub(crate) fn cache_dir() -> Option<Vec<u8>> {
    dirs::cache_dir().map(|p| p.into_os_string().into_encoded_bytes())
}

/// The bytes of an optional path.
pub open spec fn opt_bytes(p: Option<Vec<u8>>) -> Option<Seq<u8>> {
    match p {
        Some(b) => Some(b@),
        None => None,
    }
}

/// The byte of `/`.
pub const SLASH: u8 = 0x2f;

/// `name` below the directory `dir`; an absolute `name` is itself.
pub open spec fn joined(dir: Seq<u8>, name: Seq<char>) -> Seq<u8> {
    let n = encode_utf8(name);
    if n.len() > 0 && n[0] == SLASH {
        n
    } else if dir.len() == 0 || dir.last() == SLASH {
        dir + n
    } else {
        dir.push(SLASH) + n
    }
}

/// `file` in the directory `folder` of `dir`.
pub open spec fn below(dir: Seq<u8>, folder: Seq<char>, file: Seq<char>) -> Seq<u8> {
    joined(joined(dir, folder), file)
}

/// A directory, or another where it is not known.
pub open spec fn dir_or(dir: Option<Seq<u8>>, other: Seq<char>) -> Seq<u8> {
    match dir {
        Some(d) => d,
        None => encode_utf8(other),
    }
}

/// As `joined`, where the directory is a text too.
pub open spec fn text_joined(dir: Seq<char>, name: Seq<char>) -> Seq<char> {
    if name.len() > 0 && name[0] == '/' {
        name
    } else if dir.len() == 0 || dir.last() == '/' {
        dir + name
    } else {
        dir.push('/') + name
    }
}

proof fn lemma_utf8_add(a: Seq<char>, b: Seq<char>)
    ensures
        encode_utf8(a + b) == encode_utf8(a) + encode_utf8(b),
    decreases a.len(),
{
    if a.len() == 0 {
        assert(a + b =~= b);
        assert(encode_utf8(a) + encode_utf8(b) =~= encode_utf8(b));
    } else {
        lemma_utf8_add(a.drop_first(), b);
        assert((a + b).drop_first() =~= a.drop_first() + b);
        assert((a + b)[0] == a[0]);
        assert(encode_utf8(a + b) =~= encode_utf8(a) + encode_utf8(b));
    }
}

proof fn lemma_char_ends(ch: char)
    ensures
        encode_scalar(ch as u32).len() > 0,
        encode_scalar(ch as u32)[0] == SLASH <==> ch == '/',
        encode_scalar(ch as u32).last() == SLASH <==> ch == '/',
        encode_utf8(seq![ch]) == encode_scalar(ch as u32),
{
    let c = ch as u32;
    assert(c <= 0x7f ==> (c & 0x7f) as u8 == c) by (bit_vector);
    assert(0xc0 | ((c >> 6) & 0x1f) as u8 >= 0xc0) by (bit_vector);
    assert(0xe0 | ((c >> 12) & 0x0f) as u8 >= 0xe0) by (bit_vector);
    assert(0xf0 | ((c >> 18) & 0x7) as u8 >= 0xf0) by (bit_vector);
    assert(0x80 | (c & 0x3f) as u8 >= 0x80) by (bit_vector);
    let one = seq![ch];
    assert(one.drop_first() =~= Seq::<char>::empty());
    assert(encode_utf8(one.drop_first()) =~= Seq::<u8>::empty());
    assert(one[0] == ch);
    assert(encode_utf8(one) =~= encode_scalar(ch as u32));
}

proof fn lemma_utf8_ends(s: Seq<char>)
    ensures
        encode_utf8(s).len() == 0 <==> s.len() == 0,
        s.len() > 0 ==> (encode_utf8(s)[0] == SLASH <==> s[0] == '/'),
        s.len() > 0 ==> (encode_utf8(s).last() == SLASH <==> s.last() == '/'),
{
    if s.len() > 0 {
        lemma_char_ends(s[0]);
        lemma_char_ends(s.last());
        lemma_utf8_add(s.drop_last(), seq![s.last()]);
        assert(s.drop_last() + seq![s.last()] =~= s);
    }
}

/// Where the directory is a text, so is the path of what is below it.
pub proof fn text_joins_alike(dir: Seq<char>, name: Seq<char>)
    ensures
        joined(encode_utf8(dir), name) == encode_utf8(text_joined(dir, name)),
{
    lemma_utf8_ends(dir);
    lemma_utf8_ends(name);
    lemma_utf8_add(dir, name);
    let slash = seq!['/'];
    vstd::utf8::is_ascii_chars_encode_utf8(slash);
    assert(slash[0] as u8 == SLASH);
    assert(encode_utf8(slash) =~= seq![SLASH]);
    lemma_utf8_add(dir, slash);
    assert(dir.push('/') =~= dir + slash);
    lemma_utf8_add(dir.push('/'), name);
    assert(encode_utf8(dir).push(SLASH) =~= encode_utf8(dir) + seq![SLASH]);
}

fn push_text(path: &mut Vec<u8>, name: &str)
    ensures
        final(path)@ == old(path)@ + encode_utf8(name@),
{
    let b = name.as_bytes();
    let ghost was = path@;
    assert(was + b@.take(0) =~= was);
    for i in 0..b.len()
        invariant
            path@ == was + b@.take(i as int),
    {
        path.push(b[i]);
        assert(path@ =~= was + b@.take(i + 1));
    }
    assert(b@.take(b@.len() as int) =~= b@);
}

/// Appends `name` to the path `dir`.
pub fn join(dir: Vec<u8>, name: &str) -> (r: Vec<u8>)
    ensures
        r@ == joined(dir@, name@),
{
    let n = name.as_bytes();
    let mut r = if n.len() > 0 && n[0] == SLASH {
        Vec::new()
    } else {
        dir
    };
    if r.len() > 0 && r[r.len() - 1] != SLASH {
        r.push(SLASH);
    }
    push_text(&mut r, name);
    assert(r@ =~= joined(dir@, name@));
    r
}

pub(crate) fn file_below(dir: Vec<u8>, folder: &str, file: &str) -> (r: Vec<u8>)
    ensures
        r@ == below(dir@, folder@, file@),
{
    join(join(dir, folder), file)
}

pub(crate) fn or_dir(dir: Option<Vec<u8>>, other: &str) -> (r: Vec<u8>)
    ensures
        r@ == dir_or(opt_bytes(dir), other@),
{
    match dir {
        Some(d) => d,
        None => {
            let mut r: Vec<u8> = Vec::new();
            push_text(&mut r, other);
            assert(r@ =~= encode_utf8(other@));
            r
        },
    }
}

// ── File names ───────────────────────────────────────────────────────────────

/// The last segment of a path that is neither empty nor `.`.
pub open spec fn last_component(segments: Seq<Seq<char>>) -> Option<Seq<char>>
    decreases segments.len(),
{
    if segments.len() == 0 {
        None
    } else if segments.last().len() == 0 || segments.last() == "."@ {
        last_component(segments.drop_last())
    } else {
        Some(segments.last())
    }
}

/// The name of the file that a path leads to; none for a path that ends in `..`
/// or has no component.
pub open spec fn file_name(path: Seq<char>) -> Option<Seq<char>> {
    match last_component(text::split(path, '/')) {
        Some(name) => if name == ".."@ {
            None
        } else {
            Some(name)
        },
        None => None,
    }
}

/// The position of the dot before the extension of a file name: the last one,
/// unless it is the first character.
pub open spec fn extension_dot(name: Seq<char>) -> Option<int> {
    match text::rfind_char(name, '.') {
        Some(i) => if i == 0 {
            None
        } else {
            Some(i)
        },
        None => None,
    }
}

/// The extension of the file that a path leads to.
pub open spec fn extension(path: Seq<char>) -> Option<Seq<char>> {
    match file_name(path) {
        Some(name) => match extension_dot(name) {
            Some(i) => Some(name.skip(i + 1)),
            None => None,
        },
        None => None,
    }
}

/// The name, without its extension, of the file that a path leads to.
pub open spec fn file_stem(path: Seq<char>) -> Option<Seq<char>> {
    match file_name(path) {
        Some(name) => match extension_dot(name) {
            Some(i) => Some(name.take(i)),
            None => Some(name),
        },
        None => None,
    }
}

proof fn lemma_split_last(a: Seq<char>, b: Seq<char>)
    requires
        !b.contains('/'),
    ensures
        text::split(a.push('/') + b, '/') == text::split(a, '/').push(b),
    decreases a.len(),
{
    let s = a.push('/') + b;
    text::lemma_find_char_from(a, '/', 0);
    text::lemma_find_char_from(s, '/', 0);
    match text::find_char(a, '/') {
        Some(i) => {
            let k = text::find_char(s, '/')->0;
            assert(s[i] == '/');
            assert(k == i) by {
                if k < i {
                    assert(a[k] == s[k]);
                }
            }
            lemma_split_last(a.skip(i + 1), b);
            assert(s.take(i) =~= a.take(i));
            assert(s.skip(i + 1) =~= a.skip(i + 1).push('/') + b);
            assert(text::split(s, '/') =~= text::split(a, '/').push(b));
        },
        None => {
            let n = a.len() as int;
            assert(s[n] == '/');
            let k = text::find_char(s, '/')->0;
            assert(k == n) by {
                if k < n {
                    assert(a[k] == s[k]);
                }
            }
            assert(s.take(n) =~= a);
            assert(s.skip(n + 1) =~= b);
            text::lemma_find_char_from(b, '/', 0);
            assert(text::split(b, '/') == seq![b]);
            assert(text::split(s, '/') =~= text::split(a, '/').push(b));
        },
    }
}

/// A path made of a directory and a name leads to a file of that name.
pub proof fn file_name_below(dir: Seq<char>, name: Seq<char>)
    requires
        name.len() > 0,
        !name.contains('/'),
        name != "."@,
        name != ".."@,
    ensures
        file_name(dir.push('/') + name) == Some(name),
{
    lemma_split_last(dir, name);
    assert(text::split(dir, '/').push(name).last() == name);
}

fn name_of_file(path: &[char]) -> (r: Option<Vec<char>>)
    ensures
        match r {
            Some(name) => file_name(path@) == Some(name@),
            None => file_name(path@) is None,
        },
{
    let mut parts = text::pieces(path, '/');
    let ghost all = text::split(path@, '/');
    assert(text::rows(parts@) =~= all.take(parts@.len() as int));
    assert(all.take(all.len() as int) =~= all);
    loop
        invariant
            parts@.len() <= all.len(),
            text::rows(parts@) == all.take(parts@.len() as int),
            last_component(all) == last_component(all.take(parts@.len() as int)),
            all == text::split(path@, '/'),
        decreases parts@.len(),
    {
        let ghost before = parts@;
        let ghost t = all.take(before.len() as int);
        match parts.pop() {
            Some(part) => {
                proof {
                    assert(text::rows(before)[before.len() - 1] == part@);
                    assert(t.last() == part@);
                    assert(t.drop_last() =~= all.take(before.len() - 1));
                    assert(text::rows(parts@) =~= all.take(before.len() - 1));
                }
                if part.len() > 0 && !text::spells(part.as_slice(), ".") {
                    if text::spells(part.as_slice(), "..") {
                        return None;
                    }
                    return Some(part);
                }
            },
            None => {
                return None;
            },
        }
    }
}

/// The extension of the file that `path` leads to.
pub fn extension_of(path: &str) -> (r: Option<String>)
    ensures
        text::opt_text(r) == extension(path@),
{
    let cs = text::chars_of(path);
    match name_of_file(cs.as_slice()) {
        Some(name) => {
            let n: usize = name.len();
            match text::last_position_char(name.as_slice(), '.') {
                Some(i) => {
                    if i == 0 {
                        None
                    } else {
                        let e = slice_subrange(name.as_slice(), i + 1, n);
                        assert(e@ =~= name@.skip(i + 1));
                        Some(text::text_of(e))
                    }
                },
                None => None,
            }
        },
        None => None,
    }
}

/// The name, without its extension, of the file that `path` leads to.
pub fn stem_of(path: &str) -> (r: Option<String>)
    ensures
        text::opt_text(r) == file_stem(path@),
{
    let cs = text::chars_of(path);
    match name_of_file(cs.as_slice()) {
        Some(name) => {
            match text::last_position_char(name.as_slice(), '.') {
                Some(i) => {
                    if i == 0 {
                        Some(text::text_of(name.as_slice()))
                    } else {
                        let e = slice_subrange(name.as_slice(), 0, i);
                        assert(e@ =~= name@.take(i as int));
                        Some(text::text_of(e))
                    }
                },
                None => Some(text::text_of(name.as_slice())),
            }
        },
        None => None,
    }
}

// ── What paths lead to ───────────────────────────────────────────────────────

/// One slash, and only one, stands between a directory and a name in it; a name that
/// begins with a slash is a path of its own; nothing is put before a name without a
/// directory.
pub proof fn one_slash_between(dir: Seq<u8>, name: Seq<char>)
    requires
        dir.len() > 0,
        dir.last() != 0x2f,
        name.len() > 0,
    ensures
        name[0] != '/' ==> joined(dir, name) == dir + seq![0x2fu8] + encode_utf8(name),
        name[0] != '/' ==> joined(dir.push(0x2f), name) == dir + seq![0x2fu8] + encode_utf8(name),
        name[0] != '/' ==> joined(seq![], name) == encode_utf8(name),
        name[0] == '/' ==> joined(dir, name) == encode_utf8(name),
{
    lemma_utf8_ends(name);
    assert(dir.push(0x2f) =~= dir + seq![0x2fu8]);
    assert(Seq::<u8>::empty() + encode_utf8(name) =~= encode_utf8(name));
}

/// A file in a folder of a directory stands behind the directory, the folder and two
/// slashes.
pub proof fn folder_and_file_follow(dir: Seq<u8>, folder: Seq<char>, file: Seq<char>)
    requires
        dir.len() > 0,
        dir.last() != 0x2f,
        folder.len() > 0,
        folder[0] != '/',
        folder.last() != '/',
        file.len() > 0,
        file[0] != '/',
    ensures
        below(dir, folder, file) == dir + seq![0x2fu8] + encode_utf8(folder) + seq![0x2fu8]
            + encode_utf8(file),
{
    lemma_utf8_ends(folder);
    one_slash_between(dir, folder);
    let d = joined(dir, folder);
    assert(d.last() == encode_utf8(folder).last());
    one_slash_between(d, file);
}

/// The directory that is known is taken, and the other only where none is.
pub proof fn known_directory_is_taken(dir: Seq<u8>, other: Seq<char>)
    ensures
        dir_or(Some(dir), other) == dir,
        dir_or(None, other) == encode_utf8(other),
{
}

/// The last component of a path is the last of its segments that is neither empty nor
/// `.`; a path has none only where every segment is one of these.
pub proof fn last_component_is_the_last(segments: Seq<Seq<char>>)
    ensures
        match last_component(segments) {
            Some(name) => exists|i: int|
                0 <= i < segments.len() && #[trigger] segments[i] == name && name.len() > 0 && name
                    != "."@ && (forall|j: int|
                    i < j < segments.len() ==> (#[trigger] segments[j]).len() == 0 || segments[j]
                        == "."@),
            None => forall|j: int|
                0 <= j < segments.len() ==> (#[trigger] segments[j]).len() == 0 || segments[j]
                    == "."@,
        },
    decreases segments.len(),
{
    if segments.len() > 0 {
        let front = segments.drop_last();
        let n = segments.len() - 1;
        assert(segments[n] == segments.last());
        if segments.last().len() == 0 || segments.last() == "."@ {
            last_component_is_the_last(front);
            assert forall|j: int| 0 <= j < n implies front[j] == #[trigger] segments[j] by {}
            if let Some(name) = last_component(front) {
                let i = choose|i: int|
                    0 <= i < front.len() && #[trigger] front[i] == name && (forall|j: int|
                        i < j < front.len() ==> (#[trigger] front[j]).len() == 0 || front[j]
                            == "."@);
                assert(segments[i] == name);
            }
        }
    }
}

/// A name without slashes is the name of its file; slashes behind a path, and `.`
/// components, do not change what it leads to; and `..` leads to no file.
pub proof fn file_names_are_last(path: Seq<char>, name: Seq<char>)
    requires
        name.len() > 0,
        !name.contains('/'),
        name != "."@,
        name != ".."@,
    ensures
        file_name(name) == Some(name),
        file_name(path.push('/')) == file_name(path),
        file_name(path.push('/').push('.')) == file_name(path),
        file_name(path.push('/').push('.').push('.')) is None,
{
    reveal_strlit(".");
    reveal_strlit("..");
    text::lemma_find_char_from(name, '/', 0);
    if let Some(k) = text::find_char(name, '/') {
        assert(name.contains(name[k]));
    }
    let one = seq![name];
    assert(text::split(name, '/') == one);
    assert(one.last() == name);
    let parts = text::split(path, '/');
    let none = Seq::<char>::empty();
    lemma_split_last(path, none);
    assert(path.push('/') + none =~= path.push('/'));
    assert(parts.push(none).drop_last() =~= parts);
    let dot = seq!['.'];
    assert(dot =~= "."@);
    lemma_split_last(path, dot);
    assert(path.push('/') + dot =~= path.push('/').push('.'));
    assert(parts.push(dot).drop_last() =~= parts);
    assert(parts.push(dot).last() == "."@);
    let dots = seq!['.', '.'];
    assert(dots =~= ".."@);
    assert(".."@.len() == 2 && "."@.len() == 1);
    lemma_split_last(path, dots);
    assert(path.push('/') + dots =~= path.push('/').push('.').push('.'));
    assert(parts.push(dots).last() == ".."@);
}

/// The name of a file is its stem, a dot and its extension: the extension is what
/// stands behind the last dot, and the stem what stands before it.
pub proof fn names_are_stem_and_extension(path: Seq<char>, stem: Seq<char>, ext: Seq<char>)
    requires
        stem.len() > 0,
        !ext.contains('.'),
        file_name(path) == Some(stem.push('.') + ext),
    ensures
        file_stem(path) == Some(stem),
        extension(path) == Some(ext),
{
    let name = stem.push('.') + ext;
    let n = stem.len() as int;
    text::lemma_rfind_char_before(name, '.', name.len() as int);
    assert(name[n] == '.');
    if let Some(i) = text::rfind_char(name, '.') {
        if i > n {
            assert(name[i] == ext[i - n - 1]);
            assert(ext.contains(ext[i - n - 1]));
        }
    }
    assert(name.take(n) =~= stem);
    assert(name.skip(n + 1) =~= ext);
}

/// A name without a dot, or with its only dot in front, is a stem without an
/// extension.
pub proof fn names_without_extension(path: Seq<char>, name: Seq<char>)
    requires
        !name.contains('.'),
        file_name(path) == Some(name) || file_name(path) == Some(seq!['.'] + name),
    ensures
        file_stem(path) == file_name(path),
        extension(path) is None,
{
    text::lemma_rfind_char_before(name, '.', name.len() as int);
    if let Some(i) = text::rfind_char(name, '.') {
        assert(name.contains(name[i]));
    }
    let hidden = seq!['.'] + name;
    text::lemma_rfind_char_before(hidden, '.', hidden.len() as int);
    assert(hidden[0] == '.');
    if let Some(i) = text::rfind_char(hidden, '.') {
        if i > 0 {
            assert(hidden[i] == name[i - 1]);
            assert(name.contains(name[i - 1]));
        }
    }
}

/// A path that leads to no file has neither stem nor extension.
pub proof fn no_file_no_stem(path: Seq<char>)
    requires
        file_name(path) is None,
    ensures
        file_stem(path) is None,
        extension(path) is None,
{
}

/// A path that is given says its bytes.
pub proof fn paths_say_their_bytes(p: Vec<u8>)
    ensures
        opt_bytes(Some(p)) == Some(p@),
        opt_bytes(None) is None,
{
}

} // verus!
