//! The special paths: named folders that Goldleaf can browse.
//!
//! They are kept in key order, like a sorted map, and stored as a text
//! file of `name=value` lines. Names written with the backslash escapes of
//! Java properties files (as other Goldleaf clients write them, `My\ Games`)
//! are read with their escapes resolved.

use vstd::prelude::*;
use crate::properties::{lemma_name_without_backslash, name_of, resolve_name};
use crate::text::{
    chars_of, find_char, first_index, lemma_first_index_at, lemma_trim_no_ws, lines, lines_of,
    slice_chars, string_of, strip_cr, trim, trim_chars, white_space,
};

verus! {

/// The lexicographic order of character sequences by code point (the
/// order of `String`'s `Ord`, since UTF-8 keeps code-point order).
pub open spec fn chars_lt(a: Seq<char>, b: Seq<char>) -> bool
    decreases a.len(),
{
    if a.len() == 0 {
        b.len() > 0
    } else if b.len() == 0 {
        false
    } else if a[0] != b[0] {
        (a[0] as u32) < (b[0] as u32)
    } else {
        chars_lt(a.drop_first(), b.drop_first())
    }
}

/// `chars_lt` is irreflexive.
pub proof fn lemma_lt_irreflexive(a: Seq<char>)
    ensures
        !chars_lt(a, a),
    decreases a.len(),
{
    if a.len() > 0 {
        lemma_lt_irreflexive(a.drop_first());
    }
}

/// `chars_lt` is transitive.
pub proof fn lemma_lt_transitive(a: Seq<char>, b: Seq<char>, c: Seq<char>)
    requires
        chars_lt(a, b),
        chars_lt(b, c),
    ensures
        chars_lt(a, c),
    decreases a.len(),
{
    if a.len() > 0 && b.len() > 0 && c.len() > 0 && a[0] == b[0] && b[0] == c[0] {
        lemma_lt_transitive(a.drop_first(), b.drop_first(), c.drop_first());
    }
}

/// Two different sequences are ordered one way or the other.
pub proof fn lemma_lt_total(a: Seq<char>, b: Seq<char>)
    ensures
        a == b || chars_lt(a, b) || chars_lt(b, a),
    decreases a.len(),
{
    if a.len() > 0 && b.len() > 0 {
        if a[0] == b[0] {
            lemma_lt_total(a.drop_first(), b.drop_first());
            if a.drop_first() == b.drop_first() {
                assert(a =~= seq![a[0]] + a.drop_first());
                assert(b =~= seq![b[0]] + b.drop_first());
            }
        } else {
            vstd::utf8::char_u32_cast(a[0], a[0] as u32);
            vstd::utf8::char_u32_cast(b[0], b[0] as u32);
        }
    } else if a.len() == 0 && b.len() == 0 {
        assert(a =~= b);
    }
}

/// `chars_lt` is asymmetric.
pub proof fn lemma_lt_asymmetric(a: Seq<char>, b: Seq<char>)
    requires
        chars_lt(a, b),
    ensures
        !chars_lt(b, a),
        a != b,
{
    lemma_lt_irreflexive(a);
    if chars_lt(b, a) {
        lemma_lt_transitive(a, b, a);
    }
}

/// Keys strictly increasing from first to last.
pub open spec fn sorted_keys(es: Seq<(Seq<char>, Seq<char>)>) -> bool {
    forall|i: int, j: int| 0 <= i < j < es.len() ==> chars_lt(#[trigger] es[i].0, #[trigger] es[j].0)
}

/// Every key of `es` comes after `x`.
pub open spec fn keys_after(es: Seq<(Seq<char>, Seq<char>)>, x: Seq<char>) -> bool {
    forall|i: int| 0 <= i < es.len() ==> chars_lt(x, #[trigger] es[i].0)
}

/// The entries with `(k, v)` put in: an entry with key `k` gets the value
/// `v`; otherwise the entry goes before the first greater key.
pub open spec fn insert_sorted(es: Seq<(Seq<char>, Seq<char>)>, k: Seq<char>, v: Seq<char>) -> Seq<
    (Seq<char>, Seq<char>),
>
    decreases es.len(),
{
    if es.len() == 0 {
        seq![(k, v)]
    } else if es[0].0 == k {
        seq![(k, v)] + es.drop_first()
    } else if chars_lt(k, es[0].0) {
        seq![(k, v)] + es
    } else {
        seq![es[0]] + insert_sorted(es.drop_first(), k, v)
    }
}

/// The entries without those with key `k`.
pub open spec fn remove_key(es: Seq<(Seq<char>, Seq<char>)>, k: Seq<char>) -> Seq<
    (Seq<char>, Seq<char>),
>
    decreases es.len(),
{
    if es.len() == 0 {
        es
    } else if es[0].0 == k {
        remove_key(es.drop_first(), k)
    } else {
        seq![es[0]] + remove_key(es.drop_first(), k)
    }
}

/// The entries without those whose key is one of `ks`, removed in turn.
pub open spec fn remove_keys(es: Seq<(Seq<char>, Seq<char>)>, ks: Seq<Seq<char>>) -> Seq<
    (Seq<char>, Seq<char>),
>
    decreases ks.len(),
{
    if ks.len() == 0 {
        es
    } else {
        remove_keys(remove_key(es, ks[0]), ks.drop_first())
    }
}

/// The value of the first entry with key `k`.
pub open spec fn lookup(es: Seq<(Seq<char>, Seq<char>)>, k: Seq<char>) -> Option<Seq<char>>
    decreases es.len(),
{
    if es.len() == 0 {
        None
    } else if es[0].0 == k {
        Some(es[0].1)
    } else {
        lookup(es.drop_first(), k)
    }
}

/// The line that stores one entry.
pub open spec fn entry_line(e: (Seq<char>, Seq<char>)) -> Seq<char> {
    e.0 + seq!['='] + e.1
}

/// The text that stores the entries: one `name=value` line each.
pub open spec fn render(es: Seq<(Seq<char>, Seq<char>)>) -> Seq<char>
    decreases es.len(),
{
    if es.len() == 0 {
        Seq::empty()
    } else {
        entry_line(es[0]) + seq!['\n'] + render(es.drop_first())
    }
}

/// What one line of the file does to the entries: blank lines, lines whose
/// first non-blank character is `#`, lines without `=` and lines with an
/// empty name change nothing; others set the trimmed name (its escapes
/// resolved) to the trimmed value.
pub open spec fn parse_line(es: Seq<(Seq<char>, Seq<char>)>, line: Seq<char>) -> Seq<
    (Seq<char>, Seq<char>),
> {
    let t = trim(line);
    if t.len() == 0 || t[0] == '#' {
        es
    } else {
        let eq = first_index(t, '=');
        if eq < 0 {
            es
        } else {
            let key = name_of(trim(t.take(eq)));
            let value = trim(t.skip(eq + 1));
            if key.len() == 0 {
                es
            } else {
                insert_sorted(es, key, value)
            }
        }
    }
}

/// The entries that a sequence of lines sets, from the first line on.
pub open spec fn parse_lines(ls: Seq<Seq<char>>) -> Seq<(Seq<char>, Seq<char>)>
    decreases ls.len(),
{
    if ls.len() == 0 {
        Seq::empty()
    } else {
        parse_line(parse_lines(ls.drop_last()), ls.last())
    }
}

/// The entries that a configuration text sets (a later line for a name
/// wins).
pub open spec fn parse_text(text: Seq<char>) -> Seq<(Seq<char>, Seq<char>)> {
    parse_lines(lines(text))
}

/// A path separator on the host kind: `/`, and on Windows also `\`.
pub open spec fn is_sep(c: char, windows: bool) -> bool {
    c == '/' || (windows && c == '\\')
}

/// A bare Windows drive such as `C:`.
pub open spec fn bare_drive(s: Seq<char>) -> bool {
    s.len() == 2 && s[1] == ':' && (('A' <= s[0] && s[0] <= 'Z') || ('a' <= s[0] && s[0] <= 'z'))
}

/// `base` joined with the relative name `name`, as `PathBuf::join` does
/// it: a separator (`\` on Windows, `/` elsewhere) goes between them,
/// unless `base` is empty, already ends in a separator or (on Windows) is
/// a bare drive.
pub open spec fn join_path(base: Seq<char>, name: Seq<char>, windows: bool) -> Seq<char> {
    if base.len() == 0 || is_sep(base.last(), windows) || (windows && bare_drive(base)) {
        base + name
    } else {
        base + seq![if windows { '\\' } else { '/' }] + name
    }
}

/// "hadron".
pub open spec fn app_dir_name() -> Seq<char> {
    seq!['h', 'a', 'd', 'r', 'o', 'n']
}

/// "hadron-config.cfg".
pub open spec fn config_file_name() -> Seq<char> {
    seq!['h', 'a', 'd', 'r', 'o', 'n', '-', 'c', 'o', 'n', 'f', 'i', 'g', '.', 'c', 'f', 'g']
}

/// ".config".
pub open spec fn dot_config() -> Seq<char> {
    seq!['.', 'c', 'o', 'n', 'f', 'i', 'g']
}

/// The characters of an optional string.
pub open spec fn opt_chars(o: Option<String>) -> Option<Seq<char>> {
    match o {
        Some(s) => Some(s@),
        None => None,
    }
}

/// Where the configuration file is by default, given the environment
/// (each variable as read, `None` when unset): on Windows under
/// `%APPDATA%` (else `%USERPROFILE%`, else `.`); elsewhere under
/// `$XDG_CONFIG_HOME` when it is set and not blank, else `$HOME/.config`
/// (`$HOME` being `.` when unset); in both cases `hadron/hadron-config.cfg`.
pub open spec fn config_path_of(
    windows: bool,
    appdata: Option<Seq<char>>,
    userprofile: Option<Seq<char>>,
    xdg_config_home: Option<Seq<char>>,
    home: Option<Seq<char>>,
) -> Seq<char> {
    let base = if windows {
        match appdata {
            Some(a) => a,
            None => match userprofile {
                Some(u) => u,
                None => seq!['.'],
            },
        }
    } else {
        match xdg_config_home {
            Some(x) if trim(x).len() > 0 => x,
            _ => join_path(
                match home {
                    Some(h) => h,
                    None => seq!['.'],
                },
                dot_config(),
                windows,
            ),
        }
    };
    join_path(join_path(base, app_dir_name(), windows), config_file_name(), windows)
}

fn join_chars(base: &[char], name: &[char], windows: bool) -> (r: Vec<char>)
    ensures
        r@ == join_path(base@, name@, windows),
{
    let n = base.len();
    let mut out: Vec<char> = Vec::new();
    crate::text::append_chars(&mut out, base);
    let no_sep = n == 0 || base[n - 1] == '/' || (windows && base[n - 1] == '\\') || (windows && n == 2
        && base[1] == ':' && (('A' <= base[0] && base[0] <= 'Z') || ('a' <= base[0] && base[0] <= 'z')));
    if !no_sep {
        out.push(if windows { '\\' } else { '/' });
    }
    crate::text::append_chars(&mut out, name);
    out
}

/// The default configuration file for the given environment.
pub fn config_path_from(
    windows: bool,
    appdata: Option<String>,
    userprofile: Option<String>,
    xdg_config_home: Option<String>,
    home: Option<String>,
) -> (r: String)
    ensures
        r@ == config_path_of(
            windows,
            opt_chars(appdata),
            opt_chars(userprofile),
            opt_chars(xdg_config_home),
            opt_chars(home),
        ),
{
    let dot = vec!['.'];
    let base: Vec<char> = if windows {
        match appdata {
            Some(a) => chars_of(a.as_str()),
            None => match userprofile {
                Some(u) => chars_of(u.as_str()),
                None => dot,
            },
        }
    } else {
        let xdg: Option<Vec<char>> = match xdg_config_home {
            Some(x) => {
                let xc = chars_of(x.as_str());
                if trim_chars(xc.as_slice()).len() > 0 {
                    Some(xc)
                } else {
                    None
                }
            },
            None => None,
        };
        match xdg {
            Some(xc) => xc,
            None => {
                let h = match home {
                    Some(h) => chars_of(h.as_str()),
                    None => dot,
                };
                let cfg_dir = vec!['.', 'c', 'o', 'n', 'f', 'i', 'g'];
                assert(cfg_dir@ =~= dot_config());
                join_chars(h.as_slice(), cfg_dir.as_slice(), windows)
            },
        }
    };
    let app = vec!['h', 'a', 'd', 'r', 'o', 'n'];
    assert(app@ =~= app_dir_name());
    let file = vec!['h', 'a', 'd', 'r', 'o', 'n', '-', 'c', 'o', 'n', 'f', 'i', 'g', '.', 'c', 'f', 'g'];
    assert(file@ =~= config_file_name());
    let dir = join_chars(base.as_slice(), app.as_slice(), windows);
    let path = join_chars(dir.as_slice(), file.as_slice(), windows);
    string_of(path.as_slice())
}

/// "/.config/hadron/hadron-config.cfg".
pub open spec fn config_tail_unix() -> Seq<char> {
    seq![
        '/', '.', 'c', 'o', 'n', 'f', 'i', 'g', '/', 'h', 'a', 'd', 'r', 'o', 'n', '/', 'h', 'a', 'd',
        'r', 'o', 'n', '-', 'c', 'o', 'n', 'f', 'i', 'g', '.', 'c', 'f', 'g',
    ]
}

/// "/hadron/hadron-config.cfg" with the separator `sep`.
pub open spec fn config_tail(sep: char) -> Seq<char> {
    seq![
        sep, 'h', 'a', 'd', 'r', 'o', 'n', sep, 'h', 'a', 'd', 'r', 'o', 'n', '-', 'c', 'o', 'n', 'f',
        'i', 'g', '.', 'c', 'f', 'g',
    ]
}

/// Where the configuration file is by default: elsewhere than on Windows,
/// `$XDG_CONFIG_HOME/hadron/hadron-config.cfg` when that variable is set
/// and not blank, else `$HOME/.config/hadron/hadron-config.cfg` (an unset
/// and a blank `$XDG_CONFIG_HOME` give the same path); on Windows
/// `%APPDATA%\hadron\hadron-config.cfg`, else the same under
/// `%USERPROFILE%`. (Each directory as given, not ending in a separator.)
pub proof fn lemma_default_config_path(
    appdata: Option<Seq<char>>,
    userprofile: Option<Seq<char>>,
    home: Option<Seq<char>>,
    dir: Seq<char>,
    blank: Seq<char>,
)
    requires
        dir.len() > 0,
        dir.last() != '/',
        dir.last() != '\\',
        !bare_drive(dir),
        trim(blank).len() == 0,
    ensures
        config_path_of(false, appdata, userprofile, None, Some(dir)) == dir + config_tail_unix(),
        config_path_of(false, appdata, userprofile, Some(blank), home) == config_path_of(
            false,
            appdata,
            userprofile,
            None,
            home,
        ),
        trim(dir).len() > 0 ==> config_path_of(false, appdata, userprofile, Some(dir), home) == dir
            + config_tail('/'),
        config_path_of(true, Some(dir), userprofile, None, home) == dir + config_tail('\\'),
        config_path_of(true, None, Some(dir), None, home) == dir + config_tail('\\'),
{
    let cfg = join_path(dir, dot_config(), false);
    assert(cfg =~= dir + seq!['/'] + dot_config());
    assert(cfg.last() == 'g');
    let d1 = join_path(cfg, app_dir_name(), false);
    assert(d1 =~= cfg + seq!['/'] + app_dir_name());
    assert(d1.last() == 'n');
    assert(join_path(d1, config_file_name(), false) =~= dir + config_tail_unix());
    let u1 = join_path(dir, app_dir_name(), false);
    assert(u1 =~= dir + seq!['/'] + app_dir_name());
    assert(u1.last() == 'n');
    assert(join_path(u1, config_file_name(), false) =~= dir + config_tail('/'));
    let w1 = join_path(dir, app_dir_name(), true);
    assert(w1 =~= dir + seq!['\\'] + app_dir_name());
    assert(w1.last() == 'n');
    assert(!bare_drive(w1));
    assert(join_path(w1, config_file_name(), true) =~= dir + config_tail('\\'));
}

/// The characters of a list of string pairs.
pub open spec fn pairs_view(v: Seq<(String, String)>) -> Seq<(Seq<char>, Seq<char>)> {
    v.map_values(|p: (String, String)| (p.0@, p.1@))
}

/// The characters of a list of strings.
pub open spec fn strings_view(v: Seq<String>) -> Seq<Seq<char>> {
    v.map_values(|s: String| s@)
}

proof fn lemma_insert_keys_after(es: Seq<(Seq<char>, Seq<char>)>, k: Seq<char>, v: Seq<char>, x: Seq<char>)
    requires
        keys_after(es, x),
        chars_lt(x, k),
    ensures
        keys_after(insert_sorted(es, k, v), x),
    decreases es.len(),
{
    if es.len() > 0 && es[0].0 != k && !chars_lt(k, es[0].0) {
        assert(keys_after(es.drop_first(), x));
        lemma_insert_keys_after(es.drop_first(), k, v, x);
        let r = insert_sorted(es, k, v);
        assert forall|i: int| 0 <= i < r.len() implies chars_lt(x, #[trigger] r[i].0) by {
            if i > 0 {
                assert(r[i] == insert_sorted(es.drop_first(), k, v)[i - 1]);
            }
        }
    } else if es.len() > 0 && es[0].0 == k {
        let r = insert_sorted(es, k, v);
        assert forall|i: int| 0 <= i < r.len() implies chars_lt(x, #[trigger] r[i].0) by {
            if i > 0 {
                assert(r[i] == es[i]);
            }
        }
    } else if es.len() > 0 {
        let r = insert_sorted(es, k, v);
        assert forall|i: int| 0 <= i < r.len() implies chars_lt(x, #[trigger] r[i].0) by {
            if i > 0 {
                assert(r[i] == es[i - 1]);
            }
        }
    }
}

/// Putting an entry in keeps the keys sorted.
pub proof fn lemma_insert_sorted_keeps_order(es: Seq<(Seq<char>, Seq<char>)>, k: Seq<char>, v: Seq<char>)
    requires
        sorted_keys(es),
    ensures
        sorted_keys(insert_sorted(es, k, v)),
    decreases es.len(),
{
    let r = insert_sorted(es, k, v);
    if es.len() == 0 {
    } else if es[0].0 == k {
        assert forall|i: int, j: int| 0 <= i < j < r.len() implies chars_lt(
            #[trigger] r[i].0,
            #[trigger] r[j].0,
        ) by {
            assert(r[j] == es[j]);
            if i > 0 {
                assert(r[i] == es[i]);
            }
        }
    } else if chars_lt(k, es[0].0) {
        assert forall|i: int, j: int| 0 <= i < j < r.len() implies chars_lt(
            #[trigger] r[i].0,
            #[trigger] r[j].0,
        ) by {
            assert(r[j] == es[j - 1]);
            if i > 0 {
                assert(r[i] == es[i - 1]);
            } else if j > 1 {
                assert(chars_lt(es[0].0, es[j - 1].0));
                lemma_lt_transitive(k, es[0].0, es[j - 1].0);
            }
        }
    } else {
        lemma_lt_total(k, es[0].0);
        let tail = es.drop_first();
        assert(sorted_keys(tail)) by {
            assert forall|i: int, j: int| 0 <= i < j < tail.len() implies chars_lt(
                #[trigger] tail[i].0,
                #[trigger] tail[j].0,
            ) by {
                assert(tail[i] == es[i + 1] && tail[j] == es[j + 1]);
            }
        }
        assert(keys_after(tail, es[0].0)) by {
            assert forall|i: int| 0 <= i < tail.len() implies chars_lt(es[0].0, #[trigger] tail[i].0) by {
                assert(tail[i] == es[i + 1]);
            }
        }
        lemma_insert_sorted_keeps_order(tail, k, v);
        lemma_insert_keys_after(tail, k, v, es[0].0);
        let rt = insert_sorted(tail, k, v);
        assert forall|i: int, j: int| 0 <= i < j < r.len() implies chars_lt(
            #[trigger] r[i].0,
            #[trigger] r[j].0,
        ) by {
            assert(r[j] == rt[j - 1]);
            if i > 0 {
                assert(r[i] == rt[i - 1]);
            }
        }
    }
}

proof fn lemma_remove_keys_after(es: Seq<(Seq<char>, Seq<char>)>, k: Seq<char>, x: Seq<char>)
    requires
        keys_after(es, x),
    ensures
        keys_after(remove_key(es, k), x),
    decreases es.len(),
{
    if es.len() > 0 {
        let tail = es.drop_first();
        assert(keys_after(tail, x)) by {
            assert forall|i: int| 0 <= i < tail.len() implies chars_lt(x, #[trigger] tail[i].0) by {
                assert(tail[i] == es[i + 1]);
            }
        }
        lemma_remove_keys_after(tail, k, x);
        if es[0].0 != k {
            let r = remove_key(es, k);
            assert forall|i: int| 0 <= i < r.len() implies chars_lt(x, #[trigger] r[i].0) by {
                if i > 0 {
                    assert(r[i] == remove_key(tail, k)[i - 1]);
                }
            }
        }
    }
}

/// Taking an entry out keeps the keys sorted.
pub proof fn lemma_remove_key_keeps_order(es: Seq<(Seq<char>, Seq<char>)>, k: Seq<char>)
    requires
        sorted_keys(es),
    ensures
        sorted_keys(remove_key(es, k)),
    decreases es.len(),
{
    if es.len() > 0 {
        let tail = es.drop_first();
        assert(sorted_keys(tail)) by {
            assert forall|i: int, j: int| 0 <= i < j < tail.len() implies chars_lt(
                #[trigger] tail[i].0,
                #[trigger] tail[j].0,
            ) by {
                assert(tail[i] == es[i + 1] && tail[j] == es[j + 1]);
            }
        }
        lemma_remove_key_keeps_order(tail, k);
        if es[0].0 != k {
            assert(keys_after(tail, es[0].0)) by {
                assert forall|i: int| 0 <= i < tail.len() implies chars_lt(
                    es[0].0,
                    #[trigger] tail[i].0,
                ) by {
                    assert(tail[i] == es[i + 1]);
                }
            }
            lemma_remove_keys_after(tail, k, es[0].0);
            let rt = remove_key(tail, k);
            let r = remove_key(es, k);
            assert forall|i: int, j: int| 0 <= i < j < r.len() implies chars_lt(
                #[trigger] r[i].0,
                #[trigger] r[j].0,
            ) by {
                assert(r[j] == rt[j - 1]);
                if i > 0 {
                    assert(r[i] == rt[i - 1]);
                }
            }
        }
    }
}

/// Taking several keys out keeps the keys sorted.
pub proof fn lemma_remove_keys_keeps_order(es: Seq<(Seq<char>, Seq<char>)>, ks: Seq<Seq<char>>)
    requires
        sorted_keys(es),
    ensures
        sorted_keys(remove_keys(es, ks)),
    decreases ks.len(),
{
    if ks.len() > 0 {
        lemma_remove_key_keeps_order(es, ks[0]);
        lemma_remove_keys_keeps_order(remove_key(es, ks[0]), ks.drop_first());
    }
}

/// The special paths and the file they are stored in.
pub struct Config {
    path: String,
    paths: Vec<(String, String)>,
}

impl View for Config {
    type V = Seq<(Seq<char>, Seq<char>)>;

    /// The `(name, path)` entries, in increasing name order.
    closed spec fn view(&self) -> Seq<(Seq<char>, Seq<char>)> {
        pairs_view(self.paths@)
    }
}

fn key_lt(a: &[char], b: &[char]) -> (r: bool)
    ensures
        r == chars_lt(a@, b@),
{
    let mut i: usize = 0;
    assert(a@.skip(0) == a@ && b@.skip(0) == b@);
    while i < a.len() && i < b.len()
        invariant
            i <= a@.len(),
            i <= b@.len(),
            chars_lt(a@, b@) == chars_lt(a@.skip(i as int), b@.skip(i as int)),
        decreases a@.len() - i,
    {
        if a[i] != b[i] {
            assert(a@.skip(i as int)[0] == a@[i as int]);
            assert(b@.skip(i as int)[0] == b@[i as int]);
            return (a[i] as u32) < (b[i] as u32);
        }
        assert(a@.skip(i as int).drop_first() == a@.skip(i + 1));
        assert(b@.skip(i as int).drop_first() == b@.skip(i + 1));
        i += 1;
    }
    i == a.len() && i < b.len()
}

impl Config {
    #[verifier::type_invariant]
    spec fn keys_in_order(self) -> bool {
        sorted_keys(pairs_view(self.paths@))
    }

    /// The file the configuration is stored in.
    pub closed spec fn file(self) -> Seq<char> {
        self.path@
    }

    pub fn empty(path: String) -> (c: Self)
        ensures
            c@ == Seq::<(Seq<char>, Seq<char>)>::empty(),
            c.file() == path@,
    {
        let c = Config { path, paths: Vec::new() };
        assert(pairs_view(c.paths@) =~= Seq::<(Seq<char>, Seq<char>)>::empty());
        c
    }

    /// The file the configuration is stored in.
    pub fn path(&self) -> (p: &String)
        ensures
            p@ == self.file(),
    {
        &self.path
    }

    /// How many special paths there are.
    pub fn len(&self) -> (n: usize)
        ensures
            n == self@.len(),
    {
        self.paths.len()
    }

    fn insert_entry(&mut self, name: String, path: String)
        ensures
            final(self)@ == insert_sorted(old(self)@, name@, path@),
            final(self).file() == old(self).file(),
    {
        proof {
            use_type_invariant(&*self);
        }
        let ghost es = self@;
        let mut v = self.entries();
        let key = chars_of(name.as_str());
        let mut i: usize = 0;
        assert(es.skip(0) == es);
        while i < v.len()
            invariant
                i <= v@.len(),
                pairs_view(v@) == es,
                sorted_keys(es),
                *self == *old(self),
                es == old(self)@,
                key@ == name@,
                insert_sorted(es, name@, path@) == es.take(i as int) + insert_sorted(
                    es.skip(i as int),
                    name@,
                    path@,
                ),
            decreases v@.len() - i,
        {
            let ki = chars_of(v[i].0.as_str());
            let ghost rest = es.skip(i as int);
            assert(rest[0] == es[i as int]);
            if crate::text::chars_eq(ki.as_slice(), key.as_slice()) {
                v.set(i, (name, path));
                proof {
                    assert(insert_sorted(rest, key@, path@) == seq![(key@, path@)]
                        + rest.drop_first());
                    assert(pairs_view(v@) =~= es.take(i as int) + (seq![(key@, path@)]
                        + rest.drop_first()));
                    lemma_insert_sorted_keeps_order(es, key@, path@);
                }
                self.paths = v;
                return;
            }
            if key_lt(key.as_slice(), ki.as_slice()) {
                v.insert(i, (name, path));
                proof {
                    assert(insert_sorted(rest, key@, path@) == seq![(key@, path@)] + rest);
                    assert(pairs_view(v@) =~= es.take(i as int) + (seq![(key@, path@)] + rest));
                    lemma_insert_sorted_keeps_order(es, key@, path@);
                }
                self.paths = v;
                return;
            }
            proof {
                assert(rest.drop_first() == es.skip(i + 1));
                assert(es.take(i + 1) == es.take(i as int).push(es[i as int]));
                assert(es.take(i as int) + (seq![rest[0]] + insert_sorted(
                    rest.drop_first(),
                    key@,
                    path@,
                )) =~= es.take(i + 1) + insert_sorted(es.skip(i + 1), key@, path@));
            }
            i += 1;
        }
        v.push((name, path));
        proof {
            assert(es.skip(i as int).len() == 0);
            assert(es.take(i as int) == es);
            assert(pairs_view(v@) =~= es + seq![(key@, path@)]);
            lemma_insert_sorted_keeps_order(es, key@, path@);
        }
        self.paths = v;
    }

    /// Sets the path named `name` to `path`.
    pub fn add(&mut self, name: &str, path: &str)
        ensures
            final(self)@ == insert_sorted(old(self)@, name@, path@),
            sorted_keys(final(self)@),
            final(self).file() == old(self).file(),
    {
        self.insert_entry(name.to_owned(), path.to_owned());
        proof {
            use_type_invariant(&*self);
        }
    }

    fn remove_one(&mut self, name: &String)
        ensures
            final(self)@ == remove_key(old(self)@, name@),
            final(self).file() == old(self).file(),
    {
        proof {
            use_type_invariant(&*self);
        }
        let ghost es = self@;
        let mut kept: Vec<(String, String)> = Vec::new();
        let mut i: usize = 0;
        assert(es.skip(0) == es);
        while i < self.paths.len()
            invariant
                i <= self.paths@.len(),
                pairs_view(self.paths@) == es,
                remove_key(es, name@) == pairs_view(kept@) + remove_key(es.skip(i as int), name@),
            decreases self.paths@.len() - i,
        {
            let ghost rest = es.skip(i as int);
            assert(rest[0] == es[i as int]);
            assert(rest.drop_first() == es.skip(i + 1));
            let k = self.paths[i].0.clone();
            let v = self.paths[i].1.clone();
            let ghost before = kept@;
            if k != *name {
                kept.push((k, v));
                assert(pairs_view(kept@) =~= pairs_view(before).push(es[i as int]));
            }
            i += 1;
        }
        assert(es.skip(i as int).len() == 0);
        proof {
            lemma_remove_key_keeps_order(es, name@);
        }
        self.paths = kept;
    }

    /// Takes out the paths with the given names.
    pub fn remove(&mut self, names: &[String])
        ensures
            final(self)@ == remove_keys(old(self)@, strings_view(names@)),
            sorted_keys(final(self)@),
            final(self).file() == old(self).file(),
    {
        let ghost ks = strings_view(names@);
        let mut i: usize = 0;
        assert(ks.skip(0) == ks);
        while i < names.len()
            invariant
                i <= names@.len(),
                ks == strings_view(names@),
                remove_keys(old(self)@, ks) == remove_keys(self@, ks.skip(i as int)),
                self.file() == old(self).file(),
            decreases names@.len() - i,
        {
            proof {
                let rest = ks.skip(i as int);
                assert(rest[0] == names@[i as int]@);
                assert(rest.drop_first() == ks.skip(i + 1));
            }
            self.remove_one(&names[i]);
            i += 1;
        }
        assert(ks.skip(i as int).len() == 0);
        proof {
            use_type_invariant(&*self);
        }
    }

    /// The configuration stored in the file `path` whose text is `text`.
    pub fn parse(path: String, text: &str) -> (c: Self)
        ensures
            c@ == parse_text(text@),
            sorted_keys(c@),
            c.file() == path@,
    {
        let chars = chars_of(text);
        let ls = lines_of(chars.as_slice());
        let ghost all = lines(text@);
        let mut cfg = Config::empty(path);
        let mut i: usize = 0;
        assert(all.take(0) =~= Seq::<Seq<char>>::empty());
        while i < ls.len()
            invariant
                i <= ls@.len() == all.len(),
                forall|j: int| 0 <= j < ls@.len() ==> #[trigger] ls@[j]@ == all[j],
                cfg@ == parse_lines(all.take(i as int)),
                cfg.file() == path@,
            decreases ls@.len() - i,
        {
            proof {
                assert(all.take(i + 1).drop_last() == all.take(i as int));
                assert(all.take(i + 1).last() == ls@[i as int]@);
            }
            let t = trim_chars(ls[i].as_slice());
            if t.len() > 0 && t[0] != '#' {
                match find_char(t.as_slice(), '=') {
                    Some(eq) => {
                        let key_raw = slice_chars(t.as_slice(), 0, eq);
                        let value_raw = slice_chars(t.as_slice(), eq + 1, t.len());
                        let key_trimmed = trim_chars(key_raw.as_slice());
                        let key = resolve_name(key_trimmed.as_slice());
                        let value = trim_chars(value_raw.as_slice());
                        assert(key_raw@ == t@.take(eq as int));
                        assert(value_raw@ == t@.skip(eq + 1));
                        if key.len() > 0 {
                            cfg.insert_entry(string_of(key.as_slice()), string_of(value.as_slice()));
                        }
                    },
                    None => {},
                }
            }
            i += 1;
        }
        assert(all.take(i as int) == all);
        proof {
            use_type_invariant(&cfg);
        }
        cfg
    }

    /// The text that stores the configuration: one `name=value` line per
    /// entry, in name order.
    pub fn to_text(&self) -> (t: String)
        ensures
            t@ == render(self@),
    {
        let ghost es = self@;
        let mut out: Vec<char> = Vec::new();
        let mut i: usize = 0;
        assert(es.skip(0) == es);
        while i < self.paths.len()
            invariant
                i <= self.paths@.len(),
                es == pairs_view(self.paths@),
                render(es) == out@ + render(es.skip(i as int)),
            decreases self.paths@.len() - i,
        {
            let ghost rest = es.skip(i as int);
            proof {
                assert(rest[0] == es[i as int]);
                assert(rest.drop_first() == es.skip(i + 1));
            }
            let k = chars_of(self.paths[i].0.as_str());
            let v = chars_of(self.paths[i].1.as_str());
            let ghost before = out@;
            crate::text::append_chars(&mut out, k.as_slice());
            out.push('=');
            crate::text::append_chars(&mut out, v.as_slice());
            out.push('\n');
            assert(out@ =~= before + entry_line(es[i as int]) + seq!['\n']);
            i += 1;
        }
        assert(es.skip(i as int).len() == 0);
        string_of(out.as_slice())
    }

    /// The `(name, path)` entries, in increasing name order.
    pub fn entries(&self) -> (r: Vec<(String, String)>)
        ensures
            pairs_view(r@) == self@,
            sorted_keys(pairs_view(r@)),
    {
        proof {
            use_type_invariant(self);
        }
        let mut out: Vec<(String, String)> = Vec::new();
        let mut i: usize = 0;
        while i < self.paths.len()
            invariant
                i <= self.paths@.len(),
                pairs_view(out@) == pairs_view(self.paths@).take(i as int),
            decreases self.paths@.len() - i,
        {
            let k = self.paths[i].0.clone();
            let v = self.paths[i].1.clone();
            let ghost before = out@;
            out.push((k, v));
            assert(out@ == before.push((k, v)));
            assert(pairs_view(out@) =~= pairs_view(before).push((k@, v@)));
            assert(pairs_view(self.paths@)[i as int] == (k@, v@));
            assert(pairs_view(out@) =~= pairs_view(self.paths@).take(i + 1));
            i += 1;
        }
        assert(pairs_view(self.paths@).take(i as int) == pairs_view(self.paths@));
        out
    }
}


/// After `(k, v)` is put in, `k` has the value `v` and every other name
/// keeps its value.
pub proof fn lemma_lookup_after_insert(es: Seq<(Seq<char>, Seq<char>)>, k: Seq<char>, v: Seq<char>, other: Seq<char>)
    ensures
        lookup(insert_sorted(es, k, v), k) == Some(v),
        other != k ==> lookup(insert_sorted(es, k, v), other) == lookup(es, other),
    decreases es.len(),
{
    let r = insert_sorted(es, k, v);
    if es.len() == 0 {
        assert(r.drop_first() =~= es);
    } else if es[0].0 == k {
        assert(r.drop_first() == es.drop_first());
    } else if chars_lt(k, es[0].0) {
        assert(r[0].0 == k);
        assert(r.drop_first() == es);
    } else {
        lemma_lookup_after_insert(es.drop_first(), k, v, other);
        assert(r.drop_first() == insert_sorted(es.drop_first(), k, v));
    }
}

/// After `k` is taken out, it has no value and every other name keeps its
/// value.
pub proof fn lemma_lookup_after_remove(es: Seq<(Seq<char>, Seq<char>)>, k: Seq<char>, other: Seq<char>)
    ensures
        lookup(remove_key(es, k), k) == None::<Seq<char>>,
        other != k ==> lookup(remove_key(es, k), other) == lookup(es, other),
    decreases es.len(),
{
    if es.len() > 0 {
        lemma_lookup_after_remove(es.drop_first(), k, other);
        if es[0].0 != k {
            assert((seq![es[0]] + remove_key(es.drop_first(), k)).drop_first() == remove_key(
                es.drop_first(),
                k,
            ));
        }
    }
}

/// An entry that the text format stores faithfully: a non-empty name
/// without `=`, backslashes, line breaks or a leading `#`, and name and
/// value without line breaks or whitespace at either end.
pub open spec fn storable(e: (Seq<char>, Seq<char>)) -> bool {
    &&& e.0.len() > 0
    &&& e.0[0] != '#'
    &&& forall|i: int| 0 <= i < e.0.len() ==> #[trigger] e.0[i] != '=' && e.0[i] != '\n' && e.0[i] != '\\'
    &&& forall|i: int| 0 <= i < e.1.len() ==> #[trigger] e.1[i] != '\n'
    &&& !white_space(e.0[0]) && !white_space(e.0.last())
    &&& e.1.len() > 0 ==> !white_space(e.1[0]) && !white_space(e.1.last())
}

proof fn lemma_lines_of_render(es: Seq<(Seq<char>, Seq<char>)>)
    requires
        forall|i: int| 0 <= i < es.len() ==> storable(#[trigger] es[i]),
    ensures
        lines(render(es)) == es.map_values(|e: (Seq<char>, Seq<char>)| entry_line(e)),
    decreases es.len(),
{
    let m = es.map_values(|e: (Seq<char>, Seq<char>)| entry_line(e));
    if es.len() == 0 {
        assert(m =~= Seq::<Seq<char>>::empty());
    } else {
        let e = es[0];
        assert(storable(e));
        let a = entry_line(e);
        let rest = render(es.drop_first());
        let s = render(es);
        assert(s == a + seq!['\n'] + rest);
        assert forall|j: int| 0 <= j < a.len() implies s[j] != '\n' by {
            assert(s[j] == a[j]);
            if j < e.0.len() {
                assert(a[j] == e.0[j]);
            } else if j > e.0.len() {
                assert(a[j] == e.1[j - e.0.len() - 1]);
            }
        }
        lemma_first_index_at(s, '\n', a.len() as int);
        assert(s.take(a.len() as int) =~= a);
        assert(s.skip(a.len() as int + 1) =~= rest);
        assert(a.last() == '=' || a.last() == e.1.last());
        assert(strip_cr(a) == a);
        assert(forall|i: int| 0 <= i < es.drop_first().len() ==> storable(#[trigger] es.drop_first()[i])) by {
            assert forall|i: int| 0 <= i < es.drop_first().len() implies storable(#[trigger] es.drop_first()[i]) by {
                assert(es.drop_first()[i] == es[i + 1]);
            }
        }
        lemma_lines_of_render(es.drop_first());
        assert(m =~= seq![a] + es.drop_first().map_values(|e: (Seq<char>, Seq<char>)| entry_line(e)));
    }
}

proof fn lemma_parse_entry_line(es: Seq<(Seq<char>, Seq<char>)>, e: (Seq<char>, Seq<char>))
    requires
        storable(e),
    ensures
        parse_line(es, entry_line(e)) == insert_sorted(es, e.0, e.1),
{
    let line = entry_line(e);
    assert(line[0] == e.0[0]);
    assert(line.last() == '=' || line.last() == e.1.last());
    assert(!white_space('='));
    lemma_trim_no_ws(line);
    assert(trim(line) == line);
    assert forall|j: int| 0 <= j < e.0.len() implies line[j] != '=' by {
        assert(line[j] == e.0[j]);
    }
    lemma_first_index_at(line, '=', e.0.len() as int);
    assert(line.take(e.0.len() as int) =~= e.0);
    assert(line.skip(e.0.len() as int + 1) =~= e.1);
    lemma_trim_no_ws(e.0);
    lemma_trim_no_ws(e.1);
    lemma_name_without_backslash(e.0);
}

proof fn lemma_insert_at_end(es: Seq<(Seq<char>, Seq<char>)>, k: Seq<char>, v: Seq<char>)
    requires
        forall|i: int| 0 <= i < es.len() ==> chars_lt(#[trigger] es[i].0, k),
    ensures
        insert_sorted(es, k, v) == es.push((k, v)),
    decreases es.len(),
{
    if es.len() > 0 {
        lemma_lt_asymmetric(es[0].0, k);
        let tail = es.drop_first();
        assert forall|i: int| 0 <= i < tail.len() implies chars_lt(#[trigger] tail[i].0, k) by {
            assert(tail[i] == es[i + 1]);
        }
        lemma_insert_at_end(tail, k, v);
        assert(seq![es[0]] + tail.push((k, v)) =~= es.push((k, v)));
    }
}

/// What the configuration file keeps: reading back the text that a sorted
/// list of storable entries is written as gives the same entries.
pub proof fn lemma_text_roundtrip(es: Seq<(Seq<char>, Seq<char>)>)
    requires
        sorted_keys(es),
        forall|i: int| 0 <= i < es.len() ==> storable(#[trigger] es[i]),
    ensures
        parse_text(render(es)) == es,
{
    lemma_lines_of_render(es);
    lemma_parse_entry_lines(es);
}

proof fn lemma_parse_entry_lines(es: Seq<(Seq<char>, Seq<char>)>)
    requires
        sorted_keys(es),
        forall|i: int| 0 <= i < es.len() ==> storable(#[trigger] es[i]),
    ensures
        parse_lines(es.map_values(|e: (Seq<char>, Seq<char>)| entry_line(e))) == es,
    decreases es.len(),
{
    let ls = es.map_values(|e: (Seq<char>, Seq<char>)| entry_line(e));
    if es.len() > 0 {
        let init = es.drop_last();
        assert(ls.drop_last() =~= init.map_values(|e: (Seq<char>, Seq<char>)| entry_line(e)));
        assert(sorted_keys(init)) by {
            assert forall|i: int, j: int| 0 <= i < j < init.len() implies chars_lt(
                #[trigger] init[i].0,
                #[trigger] init[j].0,
            ) by {
                assert(init[i] == es[i] && init[j] == es[j]);
            }
        }
        assert forall|i: int| 0 <= i < init.len() implies storable(#[trigger] init[i]) by {
            assert(init[i] == es[i]);
        }
        lemma_parse_entry_lines(init);
        let last = es.last();
        assert(storable(es[es.len() - 1]));
        lemma_parse_entry_line(init, last);
        assert forall|i: int| 0 <= i < init.len() implies chars_lt(#[trigger] init[i].0, last.0) by {
            assert(init[i] == es[i]);
            assert(chars_lt(es[i].0, es[es.len() - 1].0));
        }
        lemma_insert_at_end(init, last.0, last.1);
        assert(init.push(last) =~= es);
    } else {
        assert(ls.len() == 0);
    }
}

/// After several names are taken out, none of them has a value and every
/// other name keeps its value.
pub proof fn lemma_lookup_after_remove_all(es: Seq<(Seq<char>, Seq<char>)>, ks: Seq<Seq<char>>, k: Seq<char>)
    ensures
        ks.contains(k) ==> lookup(remove_keys(es, ks), k) == None::<Seq<char>>,
        !ks.contains(k) ==> lookup(remove_keys(es, ks), k) == lookup(es, k),
    decreases ks.len(),
{
    if ks.len() > 0 {
        let rest = ks.drop_first();
        lemma_lookup_after_remove_all(remove_key(es, ks[0]), rest, k);
        lemma_lookup_after_remove(es, ks[0], k);
        if ks[0] == k {
            lemma_remove_absent_keeps(remove_key(es, k), rest, k);
        } else {
            if ks.contains(k) {
                let j = choose|j: int| 0 <= j < ks.len() && ks[j] == k;
                assert(rest[j - 1] == k);
            }
            if rest.contains(k) {
                let j = choose|j: int| 0 <= j < rest.len() && rest[j] == k;
                assert(ks[j + 1] == k);
            }
        }
    }
}

proof fn lemma_remove_absent_keeps(es: Seq<(Seq<char>, Seq<char>)>, ks: Seq<Seq<char>>, k: Seq<char>)
    requires
        lookup(es, k) == None::<Seq<char>>,
    ensures
        lookup(remove_keys(es, ks), k) == None::<Seq<char>>,
    decreases ks.len(),
{
    if ks.len() > 0 {
        lemma_lookup_after_remove(es, ks[0], k);
        lemma_remove_absent_keeps(remove_key(es, ks[0]), ks.drop_first(), k);
    }
}

} // verus!
