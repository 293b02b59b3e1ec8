//! Path rules shared with the Switch, drive names, and the drive lists that
//! the host's mounts, volumes or drive letters give.

use vstd::prelude::*;
use crate::config::strings_view;
use crate::text::{
    chars_eq, chars_of, first_index, has_prefix, lemma_replace_absent_char, lemma_replace_char, lines, lines_of,
    replace_all, replace_chars, split_chars,
    split_on, starts_with, string_of, trim_start, white_space, append_chars,
};

verus! {

/// `std::path::MAIN_SEPARATOR`: `/` on Unix, `\` on Windows. Stated: it is
/// one of the two.
#[verifier::external_body]
fn main_separator() -> (c: char)
    ensures
        c == '/' || c == '\\',
{
    std::path::MAIN_SEPARATOR
}

/// Whether the host is Windows (whose paths are separated by `\`).
pub fn is_windows() -> bool {
    main_separator() == '\\'
}

/// A path as the Switch is shown it: backslashes become slashes, then each
/// `//` becomes `:` on Windows and `/` elsewhere.
pub open spec fn normalized(path: Seq<char>, windows: bool) -> Seq<char> {
    let s = replace_all(path, seq!['\\'], seq!['/']);
    if windows {
        replace_all(s, seq!['/', '/'], seq![':'])
    } else {
        replace_all(s, seq!['/', '/'], seq!['/'])
    }
}

/// Replacing a pattern by text without `x` in a sequence without `x`
/// leaves no `x`.
proof fn lemma_replace_keeps_absent(s: Seq<char>, pat: Seq<char>, to: Seq<char>, x: char)
    requires
        forall|i: int| 0 <= i < s.len() ==> s[i] != x,
        forall|i: int| 0 <= i < to.len() ==> to[i] != x,
    ensures
        forall|i: int| 0 <= i < replace_all(s, pat, to).len() ==> #[trigger] replace_all(s, pat, to)[i] != x,
    decreases s.len(),
{
    let r = replace_all(s, pat, to);
    if pat.len() == 0 || s.len() < pat.len() {
    } else if s.take(pat.len() as int) == pat {
        let t = s.skip(pat.len() as int);
        assert forall|i: int| 0 <= i < t.len() implies t[i] != x by {
            assert(t[i] == s[i + pat.len()]);
        }
        lemma_replace_keeps_absent(t, pat, to, x);
        let rt = replace_all(t, pat, to);
        assert forall|i: int| 0 <= i < r.len() implies #[trigger] r[i] != x by {
            if i >= to.len() {
                assert(r[i] == rt[i - to.len()]);
            }
        }
    } else {
        let t = s.skip(1);
        assert forall|i: int| 0 <= i < t.len() implies t[i] != x by {
            assert(t[i] == s[i + 1]);
        }
        lemma_replace_keeps_absent(t, pat, to, x);
        let rt = replace_all(t, pat, to);
        assert forall|i: int| 0 <= i < r.len() implies #[trigger] r[i] != x by {
            if i >= 1 {
                assert(r[i] == rt[i - 1]);
            }
        }
    }
}

/// A sequence without two `/` in a row has no `//` to replace.
proof fn lemma_no_double_slash(s: Seq<char>, to: Seq<char>)
    requires
        forall|i: int| 0 <= i < s.len() - 1 ==> !(#[trigger] s[i] == '/' && s[i + 1] == '/'),
    ensures
        replace_all(s, seq!['/', '/'], to) == s,
    decreases s.len(),
{
    if s.len() >= 2 {
        assert(s.take(2) != seq!['/', '/']) by {
            assert(s.take(2)[0] == s[0] && s.take(2)[1] == s[1]);
        }
        let t = s.skip(1);
        assert forall|i: int| 0 <= i < t.len() - 1 implies !(#[trigger] t[i] == '/' && t[i + 1] == '/') by {
            assert(t[i] == s[i + 1] && t[i + 1] == s[i + 2]);
        }
        lemma_no_double_slash(t, to);
        assert(seq![s[0]] + t =~= s);
    }
}

/// A path as the Switch is shown it holds no backslash, and a path that
/// already has no backslash and no `//` is shown as it is.
pub proof fn lemma_normalize_laws(path: Seq<char>, windows: bool)
    ensures
        forall|j: int| 0 <= j < normalized(path, windows).len() ==> #[trigger] normalized(path, windows)[j]
            != '\\',
        ((forall|i: int| 0 <= i < path.len() ==> path[i] != '\\') && (forall|i: int|
            0 <= i < path.len() - 1 ==> !(#[trigger] path[i] == '/' && path[i + 1] == '/'))) ==> normalized(
            path,
            windows,
        ) == path,
{
    let s = replace_all(path, seq!['\\'], seq!['/']);
    lemma_replace_char(path, '\\', '/');
    assert forall|i: int| 0 <= i < s.len() implies s[i] != '\\' by {}
    let to = if windows {
        seq![':']
    } else {
        seq!['/']
    };
    lemma_replace_keeps_absent(s, seq!['/', '/'], to, '\\');
    if (forall|i: int| 0 <= i < path.len() ==> path[i] != '\\') && (forall|i: int|
        0 <= i < path.len() - 1 ==> !(#[trigger] path[i] == '/' && path[i + 1] == '/')) {
        lemma_replace_absent_char(path, '\\', '/');
        lemma_no_double_slash(path, to);
    }
}

/// A path from the Switch as the host reads it: on Windows slashes become
/// backslashes, elsewhere colons become slashes.
pub open spec fn denormalized(path: Seq<char>, windows: bool) -> Seq<char> {
    if windows {
        replace_all(path, seq!['/'], seq!['\\'])
    } else {
        replace_all(path, seq![':'], seq!['/'])
    }
}

/// Turning a path from the Switch into the host's form changes exactly
/// its `:` into `/` (elsewhere) or its `/` into `\` (on Windows) and keeps
/// every other character in place; so it keeps the length, leaves no `:`
/// (elsewhere) or `/` (on Windows), and changes nothing when done again.
pub proof fn lemma_denormalize_laws(path: Seq<char>, windows: bool)
    ensures
        denormalized(path, windows).len() == path.len(),
        !windows ==> forall|j: int| 0 <= j < path.len() ==> #[trigger] denormalized(path, windows)[j] == (
        if path[j] == ':' {
            '/'
        } else {
            path[j]
        }),
        windows ==> forall|j: int| 0 <= j < path.len() ==> #[trigger] denormalized(path, windows)[j] == (
        if path[j] == '/' {
            '\\'
        } else {
            path[j]
        }),
        !windows ==> forall|j: int| 0 <= j < path.len() ==> #[trigger] denormalized(path, windows)[j] != ':',
        windows ==> forall|j: int| 0 <= j < path.len() ==> #[trigger] denormalized(path, windows)[j] != '/',
        denormalized(denormalized(path, windows), windows) == denormalized(path, windows),
{
    let d = denormalized(path, windows);
    if windows {
        lemma_replace_char(path, '/', '\\');
        assert forall|j: int| 0 <= j < d.len() implies d[j] != '/' by {}
        lemma_replace_absent_char(d, '/', '\\');
    } else {
        lemma_replace_char(path, ':', '/');
        assert forall|j: int| 0 <= j < d.len() implies d[j] != ':' by {}
        lemma_replace_absent_char(d, ':', '/');
    }
}


/// `path` as the Switch is shown it, on the given kind of host.
pub fn normalize_path_for(path: &str, windows: bool) -> (r: String)
    ensures
        r@ == normalized(path@, windows),
{
    let p = chars_of(path);
    let backslash = vec!['\\'];
    let slash = vec!['/'];
    let double = vec!['/', '/'];
    let colon = vec![':'];
    assert(backslash@ =~= seq!['\\'] && slash@ =~= seq!['/']);
    assert(double@ =~= seq!['/', '/'] && colon@ =~= seq![':']);
    let s = replace_chars(p.as_slice(), backslash.as_slice(), slash.as_slice());
    let out = if windows {
        replace_chars(s.as_slice(), double.as_slice(), colon.as_slice())
    } else {
        replace_chars(s.as_slice(), double.as_slice(), slash.as_slice())
    };
    string_of(out.as_slice())
}

/// `path` as the Switch is shown it, on this host.
pub fn normalize_path(path: &str) -> (r: String)
    ensures
        r@ == normalized(path@, true) || r@ == normalized(path@, false),
{
    normalize_path_for(path, is_windows())
}

/// A path from the Switch as the given kind of host reads it.
pub fn denormalize_path_for(path: &str, windows: bool) -> (r: String)
    ensures
        r@ == denormalized(path@, windows),
{
    let p = chars_of(path);
    let backslash = vec!['\\'];
    let slash = vec!['/'];
    let colon = vec![':'];
    assert(backslash@ =~= seq!['\\'] && slash@ =~= seq!['/'] && colon@ =~= seq![':']);
    let out = if windows {
        replace_chars(p.as_slice(), slash.as_slice(), backslash.as_slice())
    } else {
        replace_chars(p.as_slice(), colon.as_slice(), slash.as_slice())
    };
    string_of(out.as_slice())
}

/// A path from the Switch as this host reads it.
pub fn denormalize_path(path: &str) -> (r: String)
    ensures
        r@ == denormalized(path@, true) || r@ == denormalized(path@, false),
{
    denormalize_path_for(path, is_windows())
}

/// The last piece of a Unix path that names something: empty pieces and
/// `.` do not.
pub open spec fn last_component(pieces: Seq<Seq<char>>) -> Option<Seq<char>>
    decreases pieces.len(),
{
    if pieces.len() == 0 {
        None
    } else if pieces.last().len() == 0 || pieces.last() == seq!['.'] {
        last_component(pieces.drop_last())
    } else {
        Some(pieces.last())
    }
}

/// The final component of a Unix path, unless it is `..` or there is none
/// (the rule of `Path::file_name` on Unix).
pub open spec fn unix_file_name(path: Seq<char>) -> Option<Seq<char>> {
    match last_component(split_on(path, '/')) {
        Some(c) => if c == seq!['.', '.'] {
            None
        } else {
            Some(c)
        },
        None => None,
    }
}

/// What `first_index` says of the sequence.
proof fn lemma_first_index_spec(s: Seq<char>, c: char)
    ensures
        first_index(s, c) == -1 ==> forall|i: int| 0 <= i < s.len() ==> s[i] != c,
        first_index(s, c) != -1 ==> {
            let k = first_index(s, c);
            &&& 0 <= k < s.len()
            &&& s[k] == c
            &&& forall|j: int| 0 <= j < k ==> s[j] != c
        },
    decreases s.len(),
{
    if s.len() > 0 && s[0] != c {
        lemma_first_index_spec(s.drop_first(), c);
        assert forall|i: int| 0 < i < s.len() implies s[i] == s.drop_first()[i - 1] by {}
    }
}

/// The last piece of `a`, `c`, `n` split on `c` is `n` when `n` holds no `c`.
proof fn lemma_split_last(a: Seq<char>, c: char, n: Seq<char>)
    requires
        forall|i: int| 0 <= i < n.len() ==> n[i] != c,
    ensures
        split_on(a + seq![c] + n, c).len() > 0,
        split_on(a + seq![c] + n, c).last() == n,
    decreases a.len(),
{
    let s = a + seq![c] + n;
    lemma_first_index_spec(s, c);
    assert(s[a.len() as int] == c);
    let k = first_index(s, c);
    assert(k != -1);
    assert(k <= a.len());
    if k == a.len() {
        assert(s.take(k) =~= a);
        assert(s.skip(k + 1) =~= n);
        lemma_first_index_spec(n, c);
        assert(first_index(n, c) == -1);
        assert(split_on(n, c) == seq![n]);
    } else {
        let rest = a.skip(k + 1);
        assert(s.skip(k + 1) =~= rest + seq![c] + n);
        lemma_split_last(rest, c, n);
        let tail = split_on(rest + seq![c] + n, c);
        assert((seq![s.take(k)] + tail).last() == tail.last());
    }
}

/// How drives are named: the home directory as "Home directory"; on
/// Windows any other drive `X` as "Drive (X)"; elsewhere `/` as "Root
/// directory" and a drive `.../name` by its last component `name`.
pub proof fn lemma_drive_labels(dir: Seq<char>, name: Seq<char>, home: Seq<char>, other: Seq<char>)
    requires
        name.len() > 0,
        forall|i: int| 0 <= i < name.len() ==> name[i] != '/',
        name != seq!['.'],
        name != seq!['.', '.'],
    ensures
        drive_label_of(home, home, true) == seq!['H', 'o', 'm', 'e', ' ', 'd', 'i', 'r', 'e', 'c', 't', 'o', 'r', 'y'],
        drive_label_of(home, home, false) == seq!['H', 'o', 'm', 'e', ' ', 'd', 'i', 'r', 'e', 'c', 't', 'o', 'r', 'y'],
        other != home ==> drive_label_of(other, home, true) == seq!['D', 'r', 'i', 'v', 'e', ' ', '(']
            + other + seq![')'],
        seq!['/'] != home ==> drive_label_of(seq!['/'], home, false) == seq![
            'R', 'o', 'o', 't', ' ', 'd', 'i', 'r', 'e', 'c', 't', 'o', 'r', 'y',
        ],
        dir + seq!['/'] + name != home ==> drive_label_of(dir + seq!['/'] + name, home, false) == name,
{
    let drive = dir + seq!['/'] + name;
    assert(home_label() =~= seq!['H', 'o', 'm', 'e', ' ', 'd', 'i', 'r', 'e', 'c', 't', 'o', 'r', 'y']);
    assert(root_label() =~= seq!['R', 'o', 'o', 't', ' ', 'd', 'i', 'r', 'e', 'c', 't', 'o', 'r', 'y']);
    lemma_split_last(dir, '/', name);
    let pieces = split_on(drive, '/');
    assert(pieces.last() == name);
    assert(last_component(pieces) == Some(name));
    assert(unix_file_name(drive) == Some(name));
    assert(drive != seq!['/']) by {
        assert(drive.len() >= 2);
    }
}

/// The final component of a Unix path.
pub fn file_name(path: &[char]) -> (r: Option<Vec<char>>)
    ensures
        match r {
            Some(n) => unix_file_name(path@) == Some(n@),
            None => unix_file_name(path@).is_none(),
        },
{
    let pieces = split_chars(path, '/');
    let dot = vec!['.'];
    let dotdot = vec!['.', '.'];
    assert(dot@ =~= seq!['.'] && dotdot@ =~= seq!['.', '.']);
    let ghost ps = split_on(path@, '/');
    let mut i: usize = pieces.len();
    assert(ps.take(i as int) == ps);
    while i > 0
        invariant
            i <= pieces@.len() == ps.len(),
            dot@ == seq!['.'],
            dotdot@ == seq!['.', '.'],
            ps == split_on(path@, '/'),
            forall|j: int| 0 <= j < pieces@.len() ==> #[trigger] pieces@[j]@ == ps[j],
            last_component(ps) == last_component(ps.take(i as int)),
        decreases i,
    {
        let ghost pre = ps.take(i as int);
        assert(pre.last() == pieces@[i - 1]@);
        assert(pre.drop_last() == ps.take(i - 1));
        let p = &pieces[i - 1];
        assert(p@ == pre.last());
        if p.len() == 0 || chars_eq(p.as_slice(), dot.as_slice()) {
            i -= 1;
        } else {
            if chars_eq(p.as_slice(), dotdot.as_slice()) {
                return None;
            }
            let n = crate::text::slice_chars(p.as_slice(), 0, p.len());
            assert(n@ =~= p@);
            return Some(n);
        }
    }
    assert(ps.take(0).len() == 0);
    None
}

/// "Drive (" + `drive` + ")".
pub open spec fn drive_word(drive: Seq<char>) -> Seq<char> {
    seq!['D', 'r', 'i', 'v', 'e', ' ', '('] + drive + seq![')']
}

/// "Home directory".
pub open spec fn home_label() -> Seq<char> {
    seq!['H', 'o', 'm', 'e', ' ', 'd', 'i', 'r', 'e', 'c', 't', 'o', 'r', 'y']
}

/// "Root directory".
pub open spec fn root_label() -> Seq<char> {
    seq!['R', 'o', 'o', 't', ' ', 'd', 'i', 'r', 'e', 'c', 't', 'o', 'r', 'y']
}

/// The name a drive is shown under.
pub open spec fn drive_label_of(drive: Seq<char>, home: Seq<char>, windows: bool) -> Seq<char> {
    if drive == home {
        home_label()
    } else if windows {
        drive_word(drive)
    } else if drive == seq!['/'] {
        root_label()
    } else {
        match unix_file_name(drive) {
            Some(n) => n,
            None => drive_word(drive),
        }
    }
}

fn drive_word_exec(drive: &[char]) -> (r: Vec<char>)
    ensures
        r@ == drive_word(drive@),
{
    let mut out = vec!['D', 'r', 'i', 'v', 'e', ' ', '('];
    assert(out@ =~= seq!['D', 'r', 'i', 'v', 'e', ' ', '(']);
    append_chars(&mut out, drive);
    out.push(')');
    assert(out@ =~= drive_word(drive@));
    out
}

/// The name a drive is shown under, on the given kind of host whose home
/// directory is `home`.
pub fn drive_label_for(drive: &str, home: &str, windows: bool) -> (r: String)
    ensures
        r@ == drive_label_of(drive@, home@, windows),
{
    let d = chars_of(drive);
    let h = chars_of(home);
    if chars_eq(d.as_slice(), h.as_slice()) {
        let v = vec!['H', 'o', 'm', 'e', ' ', 'd', 'i', 'r', 'e', 'c', 't', 'o', 'r', 'y'];
        assert(v@ =~= home_label());
        return string_of(v.as_slice());
    }
    if windows {
        return string_of(drive_word_exec(d.as_slice()).as_slice());
    }
    let slash = vec!['/'];
    assert(slash@ =~= seq!['/']);
    if chars_eq(d.as_slice(), slash.as_slice()) {
        let v = vec!['R', 'o', 'o', 't', ' ', 'd', 'i', 'r', 'e', 'c', 't', 'o', 'r', 'y'];
        assert(v@ =~= root_label());
        return string_of(v.as_slice());
    }
    match file_name(d.as_slice()) {
        Some(n) => string_of(n.as_slice()),
        None => string_of(drive_word_exec(d.as_slice()).as_slice()),
    }
}

/// The name a drive is shown under, on this host whose home directory is
/// `home`.
pub fn drive_label(drive: &str, home: &str) -> (r: String)
    ensures
        r@ == drive_label_of(drive@, home@, true) || r@ == drive_label_of(drive@, home@, false),
        drive@ == home@ ==> r@ == home_label(),
{
    drive_label_for(drive, home, is_windows())
}

/// The length of the run of non-whitespace characters that starts `s`.
pub open spec fn token_len(s: Seq<char>) -> nat
    decreases s.len(),
{
    if s.len() == 0 || white_space(s[0]) {
        0
    } else {
        1 + token_len(s.drop_first())
    }
}

/// The first whitespace-separated field of `s` (empty when there is none).
pub open spec fn first_field(s: Seq<char>) -> Seq<char> {
    trim_start(s).take(token_len(trim_start(s)) as int)
}

/// What follows the first whitespace-separated field of `s`.
pub open spec fn after_first_field(s: Seq<char>) -> Seq<char> {
    trim_start(s).skip(token_len(trim_start(s)) as int)
}

/// "/dev/".
pub open spec fn dev_prefix() -> Seq<char> {
    seq!['/', 'd', 'e', 'v', '/']
}

/// The mount point that a line of `/proc/mounts` contributes: its second
/// field, when its first field (the source) starts with `/dev/`.
pub open spec fn mount_point(line: Seq<char>) -> Option<Seq<char>> {
    let source = first_field(line);
    let mount = first_field(after_first_field(line));
    if has_prefix(source, dev_prefix()) && mount.len() > 0 {
        Some(mount)
    } else {
        None
    }
}

/// The mount points of block devices, in the order of the lines.
pub open spec fn mounted_drives(ls: Seq<Seq<char>>) -> Seq<Seq<char>>
    decreases ls.len(),
{
    if ls.len() == 0 {
        Seq::empty()
    } else {
        let rest = mounted_drives(ls.drop_last());
        match mount_point(ls.last()) {
            Some(m) => rest.push(m),
            None => rest,
        }
    }
}

proof fn lemma_token_len_bound(s: Seq<char>)
    ensures
        token_len(s) <= s.len(),
    decreases s.len(),
{
    if s.len() > 0 && !white_space(s[0]) {
        lemma_token_len_bound(s.drop_first());
    }
}

/// A run without whitespace followed by whitespace is one token.
proof fn lemma_token_prefix(a: Seq<char>, b: Seq<char>)
    requires
        forall|i: int| 0 <= i < a.len() ==> !white_space(#[trigger] a[i]),
        b.len() > 0,
        white_space(b[0]),
    ensures
        token_len(a + b) == a.len(),
    decreases a.len(),
{
    if a.len() == 0 {
        assert(a + b =~= b);
    } else {
        let t = a.drop_first();
        assert forall|i: int| 0 <= i < t.len() implies !white_space(#[trigger] t[i]) by {
            assert(t[i] == a[i + 1]);
        }
        lemma_token_prefix(t, b);
        assert((a + b)[0] == a[0]);
        assert((a + b).drop_first() =~= t + b);
    }
}

/// A line of `/proc/mounts` (source, a blank, mount point, a blank, the
/// other fields) lists its mount point as a drive exactly when its source
/// is a device under `/dev/`, whatever device that is; after the lines
/// `before`, it adds that drive at the end of the list.
pub proof fn lemma_mount_line(before: Seq<Seq<char>>, source: Seq<char>, mount: Seq<char>, rest: Seq<char>)
    requires
        source.len() > 0,
        mount.len() > 0,
        forall|i: int| 0 <= i < source.len() ==> !white_space(#[trigger] source[i]),
        forall|i: int| 0 <= i < mount.len() ==> !white_space(#[trigger] mount[i]),
    ensures
        ({
            let line = source + seq![' '] + mount + seq![' '] + rest;
            let device = source.len() >= 5 && source.take(5) == seq!['/', 'd', 'e', 'v', '/'];
            &&& device ==> mount_point(line) == Some(mount)
            &&& !device ==> mount_point(line).is_none()
            &&& mounted_drives(before.push(line)) == mounted_drives(before) + if device {
                seq![mount]
            } else {
                Seq::<Seq<char>>::empty()
            }
        }),
{
    let line = source + seq![' '] + mount + seq![' '] + rest;
    let after = seq![' '] + mount + seq![' '] + rest;
    let tail = mount + seq![' '] + rest;
    assert(line =~= source + after);
    assert(line[0] == source[0]);
    assert(trim_start(line) == line);
    assert(after[0] == ' ');
    lemma_token_prefix(source, after);
    assert(first_field(line) =~= source);
    assert(after_first_field(line) =~= after);
    assert(after.drop_first() =~= tail);
    assert(trim_start(after) == trim_start(tail));
    assert(tail[0] == mount[0]);
    assert(trim_start(tail) == tail);
    assert(tail =~= mount + (seq![' '] + rest));
    lemma_token_prefix(mount, seq![' '] + rest);
    assert(first_field(after) =~= mount);
    let device = source.len() >= 5 && source.take(5) == seq!['/', 'd', 'e', 'v', '/'];
    assert(dev_prefix() =~= seq!['/', 'd', 'e', 'v', '/']);
    assert(has_prefix(source, dev_prefix()) == device);
    assert(mount_point(line) == if device {
        Some(mount)
    } else {
        None::<Seq<char>>
    });
    assert(before.push(line).drop_last() =~= before);
    assert(before.push(line).last() == line);
    assert(mounted_drives(before).push(mount) =~= mounted_drives(before) + seq![mount]);
    assert(mounted_drives(before) + Seq::<Seq<char>>::empty() =~= mounted_drives(before));
}

/// The first field of `s` and what follows it.
fn split_first_field(s: &[char]) -> (r: (Vec<char>, Vec<char>))
    ensures
        r.0@ == first_field(s@),
        r.1@ == after_first_field(s@),
{
    let n = s.len();
    let mut a: usize = 0;
    assert(s@.skip(0) == s@);
    while a < n && crate::text::is_whitespace(s[a])
        invariant
            n == s@.len(),
            a <= n,
            trim_start(s@) == trim_start(s@.skip(a as int)),
        decreases n - a,
    {
        assert(s@.skip(a as int).drop_first() == s@.skip(a + 1));
        a += 1;
    }
    let ghost t = s@.skip(a as int);
    assert(trim_start(t) == t) by {
        if a < n {
            assert(t[0] == s@[a as int]);
        }
    }
    let mut b: usize = a;
    assert(t.skip(0) == t);
    while b < n && !crate::text::is_whitespace(s[b])
        invariant
            n == s@.len(),
            a <= b <= n,
            t == s@.skip(a as int),
            token_len(t) == (b - a) + token_len(t.skip(b - a)),
        decreases n - b,
    {
        assert(t.skip(b - a).drop_first() == t.skip(b - a + 1));
        assert(t.skip(b - a)[0] == s@[b as int]);
        b += 1;
    }
    assert(token_len(t.skip(b - a)) == 0) by {
        if b < n {
            assert(t.skip(b - a)[0] == s@[b as int]);
        }
    }
    let first = crate::text::slice_chars(s, a, b);
    let rest = crate::text::slice_chars(s, b, n);
    assert(first@ =~= t.take(b - a));
    assert(rest@ =~= t.skip(b - a));
    (first, rest)
}

/// The mount point a line contributes, if any.
fn mount_point_exec(line: &[char]) -> (r: Option<Vec<char>>)
    ensures
        match r {
            Some(m) => mount_point(line@) == Some(m@),
            None => mount_point(line@).is_none(),
        },
{
    let (source, rest) = split_first_field(line);
    let (mount, _) = split_first_field(rest.as_slice());
    let dev = vec!['/', 'd', 'e', 'v', '/'];
    assert(dev@ =~= dev_prefix());
    if starts_with(source.as_slice(), dev.as_slice()) && mount.len() > 0 {
        Some(mount)
    } else {
        None
    }
}

/// The drives of a Linux host: the home directory, then the mount point of
/// every `/dev/` source in the text of `/proc/mounts`, in order.
pub fn drives_from_mounts(home: &str, mounts: &str) -> (r: Vec<String>)
    ensures
        strings_view(r@) == seq![home@] + mounted_drives(lines(mounts@)),
{
    let mut out: Vec<String> = Vec::new();
    out.push(home.to_owned());
    let text = chars_of(mounts);
    let ls = lines_of(text.as_slice());
    let ghost all = lines(mounts@);
    let mut i: usize = 0;
    assert(all.take(0) =~= Seq::<Seq<char>>::empty());
    assert(strings_view(out@) =~= seq![home@] + mounted_drives(all.take(0)));
    while i < ls.len()
        invariant
            i <= ls@.len() == all.len(),
            forall|j: int| 0 <= j < ls@.len() ==> #[trigger] ls@[j]@ == all[j],
            strings_view(out@) == seq![home@] + mounted_drives(all.take(i as int)),
        decreases ls@.len() - i,
    {
        proof {
            assert(all.take(i + 1).drop_last() == all.take(i as int));
            assert(all.take(i + 1).last() == ls@[i as int]@);
        }
        let ghost before = out@;
        match mount_point_exec(ls[i].as_slice()) {
            Some(m) => {
                out.push(string_of(m.as_slice()));
                assert(strings_view(out@) =~= strings_view(before).push(m@));
            },
            None => {},
        }
        i += 1;
    }
    assert(all.take(i as int) == all);
    out
}

/// "/Volumes/".
pub open spec fn volumes_prefix() -> Seq<char> {
    seq!['/', 'V', 'o', 'l', 'u', 'm', 'e', 's', '/']
}

/// The volumes under `/Volumes` that are shown: those whose name does not
/// start with `.`, as paths, in order.
pub open spec fn volume_drives(names: Seq<Seq<char>>) -> Seq<Seq<char>>
    decreases names.len(),
{
    if names.len() == 0 {
        Seq::empty()
    } else {
        let rest = volume_drives(names.drop_last());
        let n = names.last();
        if n.len() > 0 && n[0] == '.' {
            rest
        } else {
            rest.push(volumes_prefix() + n)
        }
    }
}

/// The drives of a macOS host: the home directory, the root, then each
/// visible volume among the entries of `/Volumes`.
pub fn drives_from_volumes(home: &str, names: &[String]) -> (r: Vec<String>)
    ensures
        strings_view(r@) == seq![home@, seq!['/']] + volume_drives(strings_view(names@)),
{
    let mut out: Vec<String> = Vec::new();
    out.push(home.to_owned());
    let slash = vec!['/'];
    assert(slash@ =~= seq!['/']);
    out.push(string_of(slash.as_slice()));
    let ghost all = strings_view(names@);
    let mut i: usize = 0;
    assert(all.take(0) =~= Seq::<Seq<char>>::empty());
    assert(strings_view(out@) =~= seq![home@, seq!['/']] + volume_drives(all.take(0)));
    while i < names.len()
        invariant
            i <= names@.len() == all.len(),
            all == strings_view(names@),
            strings_view(out@) == seq![home@, seq!['/']] + volume_drives(all.take(i as int)),
        decreases names@.len() - i,
    {
        proof {
            assert(all.take(i + 1).drop_last() == all.take(i as int));
            assert(all.take(i + 1).last() == names@[i as int]@);
        }
        let n = chars_of(names[i].as_str());
        let ghost before = out@;
        if !(n.len() > 0 && n[0] == '.') {
            let mut p = vec!['/', 'V', 'o', 'l', 'u', 'm', 'e', 's', '/'];
            assert(p@ =~= volumes_prefix());
            append_chars(&mut p, n.as_slice());
            assert(p@ =~= volumes_prefix() + n@);
            out.push(string_of(p.as_slice()));
            assert(strings_view(out@) =~= strings_view(before).push(p@));
        }
        i += 1;
    }
    assert(all.take(i as int) == all);
    out
}

/// The drive letters present among `A` to `Z`, given which of the first
/// `n` letter roots exist.
pub open spec fn letter_drives(present: Seq<bool>, n: nat) -> Seq<Seq<char>>
    decreases n,
{
    if n == 0 {
        Seq::empty()
    } else {
        let rest = letter_drives(present, (n - 1) as nat);
        if present[n - 1] {
            rest.push(seq![((65 + n - 1) as u8) as char])
        } else {
            rest
        }
    }
}

/// The drives of a Windows host: the home directory, then each letter
/// `A` to `Z` whose root `X:\` exists (`present[i]` for the `i`-th letter).
pub fn drives_from_letters(home: &str, present: &[bool]) -> (r: Vec<String>)
    requires
        present@.len() == 26,
    ensures
        strings_view(r@) == seq![home@] + letter_drives(present@, 26),
{
    let mut out: Vec<String> = Vec::new();
    out.push(home.to_owned());
    let mut i: usize = 0;
    assert(strings_view(out@) =~= seq![home@] + letter_drives(present@, 0));
    while i < 26
        invariant
            i <= 26,
            present@.len() == 26,
            strings_view(out@) == seq![home@] + letter_drives(present@, i as nat),
        decreases 26 - i,
    {
        let ghost before = out@;
        if present[i] {
            let c = (65u8 + i as u8) as char;
            let v = vec![c];
            assert(v@ =~= seq![c]);
            out.push(string_of(v.as_slice()));
            assert(strings_view(out@) =~= strings_view(before).push(seq![c]));
        }
        i += 1;
    }
    out
}

/// On macOS each entry of `/Volumes` is listed as `/Volumes/NAME`, in
/// order, unless its name starts with `.`; on Windows each present letter
/// root from `A` on is listed as that letter, in order.
pub proof fn lemma_volume_and_letter_drives(names: Seq<Seq<char>>, n: Seq<char>, present: Seq<bool>, k: nat)
    requires
        k < 26,
        k < present.len(),
    ensures
        volume_drives(names.push(n)) == volume_drives(names) + if n.len() > 0 && n[0] == '.' {
            Seq::<Seq<char>>::empty()
        } else {
            seq![seq!['/', 'V', 'o', 'l', 'u', 'm', 'e', 's', '/'] + n]
        },
        letter_drives(present, k + 1) == letter_drives(present, k) + if present[k as int] {
            seq![seq![(('A' as u8) + k) as u8 as char]]
        } else {
            Seq::<Seq<char>>::empty()
        },
{
    assert(names.push(n).drop_last() =~= names);
    assert(names.push(n).last() == n);
    assert(volumes_prefix() =~= seq!['/', 'V', 'o', 'l', 'u', 'm', 'e', 's', '/']);
    let v = volume_drives(names);
    assert(v + Seq::<Seq<char>>::empty() =~= v);
    assert(v.push(volumes_prefix() + n) =~= v + seq![volumes_prefix() + n]);
    let l = letter_drives(present, k);
    assert(l + Seq::<Seq<char>>::empty() =~= l);
    assert(((65 + (k + 1) - 1) as u8) == (('A' as u8) + k) as u8);
    assert(l.push(seq![((65 + (k + 1) - 1) as u8) as char]) =~= l + seq![seq![(('A' as u8) + k) as u8 as char]]);
}

} // verus!
