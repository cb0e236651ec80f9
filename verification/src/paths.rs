//! File paths as text.
//!
//! `/` separates components. So does `\`, but not in a path that begins with `/`:
//! there it is part of a name. `C:` at the start is a drive. A component is
//! appended with `\` to a path that has a drive or a `\` that separates, and with
//! `/` to others.
use vstd::prelude::*;
use vstd::string::StringExecFns;

use crate::text;

verus! {

/// Whether `\` separates components in a path.
pub open spec fn has_backslashes(p: Seq<char>) -> bool {
    p.len() == 0 || p[0] != '/'
}

/// Whether a character separates components, where `\` does or does not.
pub open spec fn is_separator(c: char, backslashes: bool) -> bool {
    c == '/' || (backslashes && c == '\\')
}

/// `C:` and the like.
pub open spec fn is_drive(s: Seq<char>) -> bool {
    s.len() == 2 && (text::is_ascii_upper(s[0]) || text::is_ascii_lower(s[0])) && s[1] == ':'
}

/// The path without trailing separators and without trailing `.` components,
/// which do not change what it names.
pub open spec fn trimmed(p: Seq<char>, backslashes: bool) -> Seq<char>
    decreases p.len(),
{
    if p.len() > 1 && is_separator(p.last(), backslashes) {
        trimmed(p.drop_last(), backslashes)
    } else if p.len() > 1 && p.last() == '.' && is_separator(p[p.len() - 2], backslashes) {
        trimmed(p.drop_last(), backslashes)
    } else {
        p
    }
}

/// Where the last component begins.
pub open spec fn name_start(p: Seq<char>, backslashes: bool) -> int
    decreases p.len(),
{
    if p.len() == 0 {
        0
    } else if is_separator(p.last(), backslashes) || is_drive(p) {
        p.len() as int
    } else {
        name_start(p.drop_last(), backslashes)
    }
}

/// The last component, as it stands.
pub open spec fn last_component(p: Seq<char>) -> Seq<char> {
    let base = trimmed(p, has_backslashes(p));
    base.skip(name_start(base, has_backslashes(p)))
}

/// A component that names something: neither empty nor `.` nor `..`.
pub open spec fn is_name(component: Seq<char>) -> bool {
    component.len() > 0 && component != seq!['.'] && component != seq!['.', '.']
}

/// The directory part of a path with a file name, up to and with its separator.
pub open spec fn directory(p: Seq<char>) -> Seq<char> {
    let base = trimmed(p, has_backslashes(p));
    base.take(name_start(base, has_backslashes(p)))
}

/// The separator that a path goes on with.
pub open spec fn own_separator(p: Seq<char>) -> char {
    if has_backslashes(p) && (p.contains('\\') || (p.len() >= 2 && is_drive(p.take(2)))) {
        '\\'
    } else {
        '/'
    }
}

/// The path with one more component.
pub open spec fn joined(p: Seq<char>, component: Seq<char>) -> Seq<char> {
    if p.len() == 0 || is_separator(p.last(), has_backslashes(p)) || is_drive(p) {
        p + component
    } else {
        p.push(own_separator(p)) + component
    }
}

/// The path with its file name replaced; a path without a file name gets one.
pub open spec fn with_name(p: Seq<char>, name: Seq<char>) -> Seq<char> {
    if is_name(last_component(p)) {
        directory(p) + name
    } else {
        joined(p, name)
    }
}

/// Where the extension of a file name begins, at its last dot. A name whose only
/// dot comes first has no extension.
pub open spec fn stem_len(name: Seq<char>) -> int
    decreases name.len(),
{
    if name.len() == 0 {
        0
    } else if name.last() == '.' {
        name.len() - 1
    } else {
        stem_len(name.drop_last())
    }
}

/// The file name without its extension.
pub open spec fn stem(name: Seq<char>) -> Seq<char> {
    if stem_len(name) == 0 {
        name
    } else {
        name.take(stem_len(name))
    }
}

/// The path with the extension of its file name replaced; a path without a file
/// name stays.
pub open spec fn with_ext(p: Seq<char>, extension: Seq<char>) -> Seq<char> {
    if is_name(last_component(p)) {
        directory(p) + stem(last_component(p)) + seq!['.'] + extension
    } else {
        p
    }
}

proof fn lemma_name_start(p: Seq<char>, backslashes: bool)
    ensures
        0 <= name_start(p, backslashes) <= p.len(),
    decreases p.len(),
{
    if p.len() > 0 && !(is_separator(p.last(), backslashes) || is_drive(p)) {
        lemma_name_start(p.drop_last(), backslashes);
    }
}

fn separates(c: char, backslashes: bool) -> (r: bool)
    ensures
        r == is_separator(c, backslashes),
{
    c == '/' || (backslashes && c == '\\')
}

/// Where the trimmed path ends and where its last component begins.
fn name_bounds(chars: &[char]) -> (r: (usize, usize))
    ensures
        r.0 <= r.1 <= chars@.len(),
        ({
            let base = trimmed(chars@, has_backslashes(chars@));
            base == chars@.take(r.1 as int) && r.0 == name_start(base, has_backslashes(chars@))
        }),
{
    let backslashes = chars.len() == 0 || chars[0] != '/';
    let mut to: usize = chars.len();
    assert(chars@.take(to as int) =~= chars@);
    while to > 1 && (separates(chars[to - 1], backslashes) || (chars[to - 1] == '.' && separates(
        chars[to - 2],
        backslashes,
    )))
        invariant
            to <= chars@.len(),
            trimmed(chars@.take(to as int), backslashes) == trimmed(chars@, backslashes),
        decreases to,
    {
        assert(chars@.take(to as int).drop_last() =~= chars@.take(to - 1));
        to = to - 1;
    }
    let ghost base = chars@.take(to as int);
    assert(trimmed(chars@, backslashes) == base);
    let mut from: usize = to;
    assert(base.take(from as int) =~= base);
    loop
        invariant
            from <= to <= chars@.len(),
            base == chars@.take(to as int),
            name_start(base.take(from as int), backslashes) == name_start(base, backslashes),
        ensures
            from <= to,
            from == name_start(base, backslashes),
        decreases from,
    {
        let ghost cut = base.take(from as int);
        if from == 0 {
            break;
        }
        let separator = separates(chars[from - 1], backslashes);
        let drive = from == 2 && (('A' <= chars[0] && chars[0] <= 'Z') || ('a' <= chars[0]
            && chars[0] <= 'z')) && chars[1] == ':';
        assert(separator == is_separator(cut.last(), backslashes));
        assert(drive == is_drive(cut));
        if separator || drive {
            break;
        }
        assert(cut.drop_last() =~= base.take(from - 1));
        from = from - 1;
    }
    (from, to)
}

/// Whether the component from `from` to `to` names something.
fn names_something(chars: &[char], from: usize, to: usize) -> (r: bool)
    requires
        from <= to <= chars@.len(),
    ensures
        r == is_name(chars@.subrange(from as int, to as int)),
{
    let ghost component = chars@.subrange(from as int, to as int);
    if from == to {
        return false;
    }
    if to - from == 1 && chars[from] == '.' {
        assert(component =~= seq!['.']);
        return false;
    }
    if to - from == 2 && chars[from] == '.' && chars[from + 1] == '.' {
        assert(component =~= seq!['.', '.']);
        return false;
    }
    proof {
        let dot = seq!['.'];
        let dots = seq!['.', '.'];
        assert(component.len() == to - from);
        assert(component[0] == chars@[from as int]);
        assert(component != dot) by {
            assert(dot.len() == 1 && dot[0] == '.');
        }
        assert(component != dots) by {
            assert(dots.len() == 2 && dots[0] == '.' && dots[1] == '.');
            if to - from == 2 {
                assert(component[1] == chars@[from + 1]);
            }
        }
    }
    true
}

/// The separator that a path goes on with.
fn separator_of(chars: &[char]) -> (r: char)
    ensures
        r == own_separator(chars@),
{
    if chars.len() > 0 && chars[0] == '/' {
        return '/';
    }
    if chars.len() >= 2 && (('A' <= chars[0] && chars[0] <= 'Z') || ('a' <= chars[0] && chars[0]
        <= 'z')) && chars[1] == ':' {
        assert(is_drive(chars@.take(2)));
        return '\\';
    }
    let mut i: usize = 0;
    while i < chars.len()
        invariant
            i <= chars@.len(),
            has_backslashes(chars@),
            chars@.len() >= 2 ==> !is_drive(chars@.take(2)),
            forall|j: int| 0 <= j < i ==> chars@[j] != '\\',
        decreases chars@.len() - i,
    {
        if chars[i] == '\\' {
            assert(chars@.contains(chars@[i as int]));
            return '\\';
        }
        i = i + 1;
    }
    '/'
}

/// Appends a component, which is not itself a path from the root, to a path.
pub fn join_path(path: &str, component: &str) -> (r: String)
    ensures
        r@ == joined(path@, component@),
{
    let chars = text::chars_of(path);
    let n: usize = chars.len();
    let mut out = path.to_owned();
    let bare = n == 0 || separates(chars[n - 1], chars[0] != '/') || (n == 2 && (('A' <= chars[0]
        && chars[0] <= 'Z') || ('a' <= chars[0] && chars[0] <= 'z')) && chars[1] == ':');
    if !bare {
        out.push(separator_of(&chars));
    }
    out.append(component);
    out
}

/// Replaces the file name of a path.
pub fn with_file_name(path: &str, name: &str) -> (r: String)
    ensures
        r@ == with_name(path@, name@),
{
    let chars = text::chars_of(path);
    let (from, to) = name_bounds(&chars);
    assert(chars@.subrange(from as int, to as int) =~= chars@.take(to as int).skip(from as int));
    if names_something(&chars, from, to) {
        let mut out = text::string_of_range(&chars, 0, from);
        assert(chars@.subrange(0, from as int) =~= chars@.take(to as int).take(from as int));
        out.append(name);
        out
    } else {
        join_path(path, name)
    }
}

/// Replaces the extension of a path.
pub fn with_extension(path: &str, extension: &str) -> (r: String)
    ensures
        r@ == with_ext(path@, extension@),
{
    let chars = text::chars_of(path);
    let (from, to) = name_bounds(&chars);
    let ghost name = chars@.subrange(from as int, to as int);
    assert(name =~= chars@.take(to as int).skip(from as int));
    if !names_something(&chars, from, to) {
        return path.to_owned();
    }
    let mut dot: usize = to;
    assert(name.take(dot - from) =~= name);
    loop
        invariant
            from <= dot <= to <= chars@.len(),
            name == chars@.subrange(from as int, to as int),
            stem_len(name.take(dot - from)) == stem_len(name),
        ensures
            from <= dot <= to,
            (dot == from && stem_len(name) == 0) || (dot > from && stem_len(name) == dot - 1 - from),
        decreases dot,
    {
        let ghost cut = name.take(dot - from);
        if dot == from {
            break;
        }
        assert(cut.last() == chars@[dot - 1]);
        if chars[dot - 1] == '.' {
            break;
        }
        assert(cut.drop_last() =~= name.take(dot - 1 - from));
        dot = dot - 1;
    }
    let end: usize = if dot <= from + 1 {
        to
    } else {
        dot - 1
    };
    let mut out = text::string_of_range(&chars, 0, end);
    proof {
        let head = chars@.take(to as int).take(from as int);
        if dot <= from + 1 {
            assert(chars@.subrange(0, end as int) =~= head + name);
        } else {
            assert(chars@.subrange(0, end as int) =~= head + name.take(stem_len(name)));
        }
    }
    out.push('.');
    out.append(extension);
    proof {
        assert(out@ =~= with_ext(path@, extension@));
    }
    out
}

/// Replacing the file name twice is the same as replacing it once with the
/// second name: the new file stands in the same directory.
pub proof fn law_new_name_stays_in_directory(p: Seq<char>, first: Seq<char>, second: Seq<char>)
    requires
        is_plain_name(first),
    ensures
        with_name(with_name(p, first), second) == with_name(p, second),
{
    let q = with_name(p, first);
    let head = if is_name(last_component(p)) {
        directory(p)
    } else {
        joined(p, Seq::empty())
    };
    let w = has_backslashes(p);
    let base = trimmed(p, w);
    lemma_name_start(base, w);
    lemma_trimmed_prefix(p, w);
    if is_name(last_component(p)) {
        lemma_cut_at_name(base, w);
        if head.len() == 0 {
            lemma_no_separator(base, w);
        }
    }
    assert(q =~= head + first);
    assert(with_name(p, second) =~= head + second);
    assert(head.len() == 0 || is_separator(head.last(), w) || is_drive(head));
    assert(has_backslashes(q) == w);
    lemma_plain_suffix(head, first, first.len() as int, w);
    assert(first.take(first.len() as int) =~= first);
    assert(q.last() == first.last());
    assert(q.len() > 1 && q.last() == '.' ==> !is_separator(q[q.len() - 2], w)) by {
        if first.len() > 1 {
            assert(q[q.len() - 2] == first[first.len() - 2]);
        } else if q.last() == '.' {
            assert(first =~= seq!['.']);
        }
    }
    assert(trimmed(q, w) == q);
    assert(q.skip(head.len() as int) =~= first);
    assert(q.take(head.len() as int) =~= head);
}

/// A file name without separators and without a drive.
pub open spec fn is_plain_name(name: Seq<char>) -> bool {
    &&& is_name(name)
    &&& forall|i: int| 0 <= i < name.len() ==> !is_separator(#[trigger] name[i], true) && name[i] != ':'
}

proof fn lemma_trimmed_prefix(p: Seq<char>, backslashes: bool)
    ensures
        trimmed(p, backslashes).is_prefix_of(p),
        p.len() > 0 ==> trimmed(p, backslashes).len() > 0,
    decreases p.len(),
{
    if p.len() > 1 {
        lemma_trimmed_prefix(p.drop_last(), backslashes);
    }
}

/// A path whose name starts at its beginning does not begin with a separator.
proof fn lemma_no_separator(p: Seq<char>, backslashes: bool)
    requires
        name_start(p, backslashes) == 0,
        p.len() > 0,
    ensures
        !is_separator(p[0], backslashes),
    decreases p.len(),
{
    if p.len() > 1 {
        lemma_no_separator(p.drop_last(), backslashes);
    }
}

proof fn lemma_cut_at_name(p: Seq<char>, backslashes: bool)
    ensures
        ({
            let head = p.take(name_start(p, backslashes));
            head.len() == 0 || is_separator(head.last(), backslashes) || is_drive(head)
        }),
    decreases p.len(),
{
    lemma_name_start(p, backslashes);
    if p.len() > 0 {
        if is_separator(p.last(), backslashes) || is_drive(p) {
            assert(p.take(p.len() as int) =~= p);
        } else {
            lemma_cut_at_name(p.drop_last(), backslashes);
            lemma_name_start(p.drop_last(), backslashes);
            let start = name_start(p, backslashes);
            assert(p.drop_last().take(start) =~= p.take(start));
        }
    }
}

proof fn lemma_plain_suffix(head: Seq<char>, name: Seq<char>, k: int, backslashes: bool)
    requires
        is_plain_name(name),
        0 <= k <= name.len(),
        head.len() == 0 || is_separator(head.last(), backslashes) || is_drive(head),
    ensures
        name_start(head + name.take(k), backslashes) == head.len(),
    decreases k,
{
    let whole = head + name.take(k);
    if k == 0 {
        assert(whole =~= head);
    } else {
        lemma_plain_suffix(head, name, k - 1, backslashes);
        assert(whole.last() == name[k - 1]);
        assert(whole.drop_last() =~= head + name.take(k - 1));
    }
}

} // verus!
