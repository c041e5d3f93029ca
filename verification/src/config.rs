//! Settings kept between runs, in a config file: for now, just which
//! ledger to read when none is given.

use vstd::prelude::*;
use crate::syntax::source::{FileId, Span};
use crate::text::utf8::{
    bytes_of, chars_before, char_len_utf8, lemma_bytes_of_nonneg, lemma_bytes_of_prefix, lemma_chars_before_inverse,
    lemma_chars_before_prefix,
};
use crate::text::chars::{
    chars_of, string_of, extend_chars, split_on, split_chars, trimmed, trim_chars, trim_start, lead_spaces,
    lemma_lead_spaces,
};

verus! {

/// The settings.
#[derive(Clone, Debug)]
pub struct Config {
    /// The ledger to read when no other is given
    pub file: Option<String>,
}

/// Whether a path is absolute: it starts at the root.
pub open spec fn is_absolute(p: Seq<char>) -> bool {
    p.len() > 0 && p[0] == '/'
}

/// `b` added to the path `a`: `b` itself where it is absolute, else after
/// a separator unless `a` is empty or already ends in one.
pub open spec fn joined_path(a: Seq<char>, b: Seq<char>) -> Seq<char> {
    if is_absolute(b) {
        b
    } else if a.len() > 0 && a.last() != '/' {
        a + seq!['/'] + b
    } else {
        a + b
    }
}

/// Appends a path to another, as `Path::join` does.
pub fn join_path(a: &str, b: &str) -> (r: String)
    ensures
        r@ == joined_path(a@, b@),
{
    let ac = chars_of(a);
    let bc = chars_of(b);
    if bc.len() > 0 && bc[0] == '/' {
        return b.to_owned();
    }
    let mut out: Vec<char> = Vec::new();
    extend_chars(&mut out, a);
    if ac.len() > 0 && ac[ac.len() - 1] != '/' {
        out.push('/');
    }
    extend_chars(&mut out, b);
    string_of(&out)
}

/// An environment value that is an absolute path.
pub open spec fn absolute_value(v: Option<Seq<char>>) -> Option<Seq<char>> {
    match v {
        Some(p) => if is_absolute(p) { Some(p) } else { None },
        None => None,
    }
}

pub open spec fn opt_chars(v: Option<&str>) -> Option<Seq<char>> {
    match v {
        Some(s) => Some(s@),
        None => None,
    }
}

fn absolute(v: Option<&str>) -> (r: Option<String>)
    ensures
        match r {
            Some(s) => absolute_value(opt_chars(v)) == Some(s@),
            None => absolute_value(opt_chars(v)) is None,
        },
{
    match v {
        Some(p) => {
            let c = chars_of(p);
            if c.len() > 0 && c[0] == '/' { Some(p.to_owned()) } else { None }
        },
        None => None,
    }
}

/// The home directory: `HOME`, or else `USERPROFILE`, where it is an
/// absolute path.
pub open spec fn home_of(home: Option<Seq<char>>, userprofile: Option<Seq<char>>) -> Option<Seq<char>> {
    match absolute_value(home) {
        Some(h) => Some(h),
        None => absolute_value(userprofile),
    }
}

/// The person's home directory, from the values of `HOME` and
/// `USERPROFILE`
pub fn home(home_var: Option<&str>, userprofile: Option<&str>) -> (r: Option<String>)
    ensures
        match r {
            Some(s) => home_of(opt_chars(home_var), opt_chars(userprofile)) == Some(s@),
            None => home_of(opt_chars(home_var), opt_chars(userprofile)) is None,
        },
{
    match absolute(home_var) {
        Some(h) => Some(h),
        None => absolute(userprofile),
    }
}

/// Where the config file lives: under `$XDG_CONFIG_HOME` if that is set,
/// else `~/.config`, else `%APPDATA%`.
pub open spec fn config_path(xdg: Option<Seq<char>>, home: Option<Seq<char>>, appdata: Option<Seq<char>>) -> Option<Seq<char>> {
    let base = match absolute_value(xdg) {
        Some(x) => Some(x),
        None => match home {
            Some(h) => Some(joined_path(h, ".config"@)),
            None => absolute_value(appdata),
        },
    };
    match base {
        Some(b) => Some(joined_path(joined_path(b, "ledr"@), "config.toml"@)),
        None => None,
    }
}

/// Where the config file lives, from the values of `XDG_CONFIG_HOME`, the
/// home directory and `APPDATA`
pub fn path(xdg: Option<&str>, home_dir: Option<&str>, appdata: Option<&str>) -> (r: Option<String>)
    ensures
        match r {
            Some(s) => config_path(opt_chars(xdg), opt_chars(home_dir), opt_chars(appdata)) == Some(s@),
            None => config_path(opt_chars(xdg), opt_chars(home_dir), opt_chars(appdata)) is None,
        },
{
    let base = match absolute(xdg) {
        Some(x) => x,
        None => match home_dir {
            Some(h) => join_path(h, ".config"),
            None => match absolute(appdata) {
                Some(a) => a,
                None => return None,
            },
        },
    };
    let dir = join_path(base.as_str(), "ledr");
    Some(join_path(dir.as_str(), "config.toml"))
}

/// A path with a leading `~` meaning the home directory.
pub open spec fn expanded_home(path: Seq<char>, home: Option<Seq<char>>) -> Seq<char> {
    if path.len() > 0 && path[0] == '~' && (path.len() == 1 || path[1] == '/' || path[1] == '\\') {
        match home {
            Some(h) => joined_path(h, path.skip(if path.len() == 1 { 1 } else { 2 })),
            None => path,
        }
    } else {
        path
    }
}

/// Expands a leading `~` to the home directory
pub fn expand_home(path: &str, home_dir: Option<&str>) -> (r: String)
    ensures
        r@ == expanded_home(path@, opt_chars(home_dir)),
{
    let c = chars_of(path);
    let tilde = c.len() > 0 && c[0] == '~' && (c.len() == 1 || c[1] == '/' || c[1] == '\\');
    if !tilde {
        return path.to_owned();
    }
    match home_dir {
        Some(h) => {
            let skip: usize = if c.len() == 1 { 1 } else { 2 };
            let mut rest: Vec<char> = Vec::new();
            let mut i: usize = skip;
            while i < c.len()
                invariant
                    skip <= i <= c@.len(),
                    rest@ == c@.subrange(skip as int, i as int),
                decreases c@.len() - i,
            {
                rest.push(c[i]);
                assert(c@.subrange(skip as int, i + 1) =~= c@.subrange(skip as int, i as int).push(c@[i as int]));
                i = i + 1;
            }
            assert(rest@ =~= c@.skip(skip as int));
            let rs = string_of(&rest);
            join_path(h, rs.as_str())
        },
        None => path.to_owned(),
    }
}

/// The directory a path is in: everything before its last separator, the
/// root for a path just under it, and nothing for a bare name.
pub open spec fn parent_of(p: Seq<char>) -> Seq<char> {
    let last = last_slash(p, p.len() as int);
    if last < 0 { Seq::empty() } else if last == 0 { seq!['/'] } else { p.take(last) }
}

/// The last separator among the first `k` characters, or -1.
pub open spec fn last_slash(p: Seq<char>, k: int) -> int
    decreases k,
{
    if k <= 0 { -1 } else if p[k - 1] == '/' { k - 1 } else { last_slash(p, k - 1) }
}

pub fn parent_dir(p: &Vec<char>) -> (r: Vec<char>)
    ensures
        r@ == parent_of(p@),
{
    let mut k: usize = p.len();
    while k > 0 && p[k - 1] != '/'
        invariant
            k <= p@.len(),
            last_slash(p@, p@.len() as int) == last_slash(p@, k as int),
        decreases k,
    {
        k = k - 1;
    }
    let mut out: Vec<char> = Vec::new();
    if k == 0 {
        return out;
    }
    if k == 1 {
        out.push('/');
        return out;
    }
    let mut i: usize = 0;
    while i < k - 1
        invariant
            i <= k - 1,
            k <= p@.len(),
            out@ == p@.take(i as int),
        decreases k - 1 - i,
    {
        out.push(p[i]);
        assert(p@.take(i + 1) =~= p@.take(i as int).push(p@[i as int]));
        i = i + 1;
    }
    out
}

/// The ledger named in the config, resolved: `~` is the home directory, and
/// a relative path is relative to the config file.
pub open spec fn configured_ledger(file: Option<Seq<char>>, config_file: Option<Seq<char>>, home: Option<Seq<char>>) -> Option<Seq<char>> {
    match file {
        None => None,
        Some(f) => {
            let f = trimmed(f);
            if f.len() == 0 {
                None
            } else {
                let expanded = expanded_home(f, home);
                if !is_absolute(expanded) && config_file is Some {
                    Some(joined_path(parent_of(config_file->0), expanded))
                } else {
                    Some(expanded)
                }
            }
        },
    }
}

/// The ledger named in the config, resolved: `~` is the home directory, and
/// a relative path is relative to the config file, just as an include is
/// relative to the file that includes it
pub fn ledger(config: &Config, config_file: Option<&str>, home_dir: Option<&str>) -> (r: Option<String>)
    ensures
        match r {
            Some(s) => configured_ledger(match config.file { Some(f) => Some(f@), None => None },
                opt_chars(config_file), opt_chars(home_dir)) == Some(s@),
            None => configured_ledger(match config.file { Some(f) => Some(f@), None => None },
                opt_chars(config_file), opt_chars(home_dir)) is None,
        },
{
    let file = match &config.file {
        Some(f) => f,
        None => return None,
    };
    let c = chars_of(file.as_str());
    let t = trim_chars(&c);
    if t.len() == 0 {
        return None;
    }
    let ts = string_of(&t);
    let expanded = expand_home(ts.as_str(), home_dir);
    let ec = chars_of(expanded.as_str());
    let relative = !(ec.len() > 0 && ec[0] == '/');
    match config_file {
        Some(cf) if relative => {
            let cc = chars_of(cf);
            let dir = parent_dir(&cc);
            let ds = string_of(&dir);
            Some(join_path(ds.as_str(), expanded.as_str()))
        },
        _ => Some(expanded),
    }
}

/// How many line breaks `s` holds.
pub open spec fn newlines(s: Seq<char>) -> int
    decreases s.len(),
{
    if s.len() == 0 { 0 } else { newlines(s.drop_last()) + if s.last() == '\n' { 1int } else { 0 } }
}

/// The byte offset at which the last line of `s` starts: just after its
/// last line break, or 0 where it has none.
pub open spec fn last_line_offset(s: Seq<char>) -> int
    decreases s.len(),
{
    if s.len() == 0 {
        0
    } else if s.last() == '\n' {
        bytes_of(s)
    } else {
        last_line_offset(s.drop_last())
    }
}

/// The index of the first line break at or after `k`, or the length of `s`
/// where there is none.
pub open spec fn break_from(s: Seq<char>, k: int) -> int
    decreases s.len() - k,
{
    if k >= s.len() {
        s.len() as int
    } else if s[k] == '\n' {
        k
    } else {
        break_from(s, k + 1)
    }
}

/// Where a byte range of `text` is shown: on the line that holds its start
/// (the start being kept within the text), from the start's column to the
/// range's end, cut at the end of that line, and at least one column wide.
pub open spec fn span_within(text: Seq<char>, file: FileId, from: int, to: int) -> Span {
    let start = if from < bytes_of(text) { from } else { bytes_of(text) };
    let k = chars_before(text, start)->0;
    let line_start = last_line_offset(text.take(k));
    let line_end = bytes_of(text.take(break_from(text, k)));
    let cut = if to < line_end { to } else { line_end };
    let end = if cut > start + 1 { cut } else { start + 1 };
    Span {
        file,
        line: (newlines(text.take(k)) + 1) as usize,
        last_line: (newlines(text.take(k)) + 1) as usize,
        start: (start - line_start) as usize,
        end: (end - line_start) as usize,
    }
}

proof fn lemma_last_line_offset(s: Seq<char>)
    ensures
        0 <= last_line_offset(s) <= bytes_of(s),
    decreases s.len(),
{
    lemma_bytes_of_nonneg(s);
    if s.len() > 0 {
        lemma_last_line_offset(s.drop_last());
        lemma_bytes_of_prefix(s, s.len() - 1, s.len() as int);
        assert(s.take(s.len() - 1) =~= s.drop_last());
        assert(s.take(s.len() as int) =~= s);
    }
}

/// Points at a byte range, or at its first line if it spans several. The
/// range's start, once kept within the text, falls on a character boundary.
pub fn span_of(text: &str, file: FileId, range: std::ops::Range<usize>) -> (r: Span)
    requires
        bytes_of(text@) < usize::MAX,
        chars_before(text@, if range.start < bytes_of(text@) { range.start as int } else { bytes_of(text@) }) is Some,
    ensures
        r == span_within(text@, file, range.start as int, range.end as int),
{
    let v = chars_of(text);
    let ghost s = v@;
    let mut total: usize = 0;
    let mut i: usize = 0;
    while i < v.len()
        invariant
            s == v@,
            i <= s.len(),
            total == bytes_of(s.take(i as int)),
            bytes_of(s) < usize::MAX,
        decreases s.len() - i,
    {
        proof {
            lemma_bytes_of_prefix(s, i + 1, s.len() as int);
            assert(s.take(s.len() as int) =~= s);
            assert(s.take(i + 1).drop_last() =~= s.take(i as int));
        }
        total = total + char_len_utf8(v[i]);
        i = i + 1;
    }
    assert(s.take(s.len() as int) =~= s);
    let start = if range.start < total { range.start } else { total };
    let ghost k = chars_before(s, start as int)->0;
    proof { lemma_chars_before_inverse(s, start as int); }
    let mut i: usize = 0;
    let mut b: usize = 0;
    let mut line: usize = 1;
    let mut line_start: usize = 0;
    assert(s.take(0) =~= Seq::<char>::empty());
    while b < start
        invariant
            s == v@,
            s.len() == v.len(),
            0 <= k <= s.len(),
            bytes_of(s.take(k)) == start,
            start <= total,
            total == bytes_of(s),
            total < usize::MAX,
            i <= k,
            b == bytes_of(s.take(i as int)),
            line == newlines(s.take(i as int)) + 1,
            line <= b + 1,
            line_start == last_line_offset(s.take(i as int)),
        decreases k - i,
    {
        proof {
            lemma_bytes_of_prefix(s, i + 1, k);
            assert(s.take(i + 1).drop_last() =~= s.take(i as int));
        }
        let c = v[i];
        b = b + char_len_utf8(c);
        if c == '\n' {
            line = line + 1;
            line_start = b;
        }
        i = i + 1;
    }
    proof {
        lemma_bytes_of_prefix(s, i as int, k);
        lemma_chars_before_prefix(s, i as int);
        lemma_last_line_offset(s.take(i as int));
    }
    assert(i == k);
    let mut j: usize = i;
    let mut e: usize = b;
    while j < v.len() && v[j] != '\n'
        invariant
            s == v@,
            i <= j <= s.len(),
            total == bytes_of(s),
            e == bytes_of(s.take(j as int)),
            break_from(s, i as int) == break_from(s, j as int),
        decreases s.len() - j,
    {
        proof {
            lemma_bytes_of_prefix(s, j + 1, s.len() as int);
            assert(s.take(s.len() as int) =~= s);
            assert(s.take(j + 1).drop_last() =~= s.take(j as int));
        }
        e = e + char_len_utf8(v[j]);
        j = j + 1;
    }
    let line_end = e;
    let cut = if range.end < line_end { range.end } else { line_end };
    let end = if cut > start + 1 { cut } else { start + 1 };
    Span::new(file, line, start - line_start, end - line_start)
}

/// Unicode's control characters (`char::is_control`).
pub open spec fn is_control(c: char) -> bool {
    (c as u32) <= 0x1f || (0x7f <= (c as u32) && (c as u32) <= 0x9f)
}

fn is_control_char(c: char) -> (r: bool)
    ensures
        r == is_control(c),
{
    let v = c as u32;
    v <= 0x1f || (0x7f <= v && v <= 0x9f)
}

/// An upper-case hexadecimal digit.
pub open spec fn hex_digit(v: int) -> char {
    if v < 10 { ((v + 48) as u8) as char } else { ((v + 55) as u8) as char }
}

/// How a character is written inside a basic TOML string.
pub open spec fn escaped(c: char) -> Seq<char> {
    if c == '"' {
        seq!['\\', '"']
    } else if c == '\\' {
        seq!['\\', '\\']
    } else if c == '\n' {
        seq!['\\', 'n']
    } else if c == '\t' {
        seq!['\\', 't']
    } else if is_control(c) {
        let v = c as u32 as int;
        seq!['\\', 'u', hex_digit(v / 4096), hex_digit((v / 256) % 16), hex_digit((v / 16) % 16), hex_digit(v % 16)]
    } else {
        seq![c]
    }
}

/// Each character of `s` as written in a basic TOML string.
pub open spec fn escaped_all(s: Seq<char>) -> Seq<char>
    decreases s.len(),
{
    if s.len() == 0 { Seq::empty() } else { escaped_all(s.drop_last()) + escaped(s.last()) }
}

/// `value` as a TOML string: literal if that needs no escapes, else basic.
pub open spec fn toml_quoted(value: Seq<char>) -> Seq<char> {
    if !value.contains('\'') && !(exists|i: int| 0 <= i < value.len() && is_control(#[trigger] value[i])) {
        seq!['\''] + value + seq!['\'']
    } else {
        seq!['"'] + escaped_all(value) + seq!['"']
    }
}

fn hex_char(v: u32) -> (r: char)
    requires
        v < 16,
    ensures
        r == hex_digit(v as int),
{
    if v < 10 { ((v + 48) as u8) as char } else { ((v + 55) as u8) as char }
}

/// Writes `value` as a TOML string: literal if that needs no escapes, as
/// Windows paths often would, else basic
pub fn toml_string(value: &str) -> (r: String)
    ensures
        r@ == toml_quoted(value@),
{
    let c = chars_of(value);
    let mut plain = true;
    let mut i: usize = 0;
    while i < c.len()
        invariant
            i <= c@.len(),
            plain == !(exists|k: int| 0 <= k < i && (c@[k] == '\'' || is_control(#[trigger] c@[k]))),
        decreases c@.len() - i,
    {
        if c[i] == '\'' || is_control_char(c[i]) {
            plain = false;
        }
        i = i + 1;
    }
    proof {
        if plain {
            assert(!c@.contains('\''));
        } else {
            let k = choose|k: int| 0 <= k < c@.len() && (c@[k] == '\'' || is_control(#[trigger] c@[k]));
            if c@[k] == '\'' {
                assert(c@.contains('\''));
            }
        }
    }
    let mut out: Vec<char> = Vec::new();
    if plain {
        out.push('\'');
        extend_chars(&mut out, value);
        out.push('\'');
        return string_of(&out);
    }
    out.push('"');
    let mut k: usize = 0;
    while k < c.len()
        invariant
            k <= c@.len(),
            out@ == seq!['"'] + escaped_all(c@.take(k as int)),
        decreases c@.len() - k,
    {
        assert(c@.take(k + 1).drop_last() =~= c@.take(k as int));
        let ch = c[k];
        let ghost before = out@;
        if ch == '"' {
            out.push('\\'); out.push('"');
        } else if ch == '\\' {
            out.push('\\'); out.push('\\');
        } else if ch == '\n' {
            out.push('\\'); out.push('n');
        } else if ch == '\t' {
            out.push('\\'); out.push('t');
        } else if is_control_char(ch) {
            let v = ch as u32;
            out.push('\\');
            out.push('u');
            out.push(hex_char(v / 4096));
            out.push(hex_char((v / 256) % 16));
            out.push(hex_char((v / 16) % 16));
            out.push(hex_char(v % 16));
        } else {
            out.push(ch);
        }
        assert(out@ =~= before + escaped(ch));
        k = k + 1;
    }
    assert(c@.take(c@.len() as int) =~= c@);
    out.push('"');
    string_of(&out)
}

/// The lines of a text: split at each `\n`, a `\r` before it dropped, and
/// no empty line after a final newline.
pub open spec fn text_lines(t: Seq<char>) -> Seq<Seq<char>> {
    let pieces = split_on(t, '\n');
    let ended = pieces.drop_last().map_values(|p: Seq<char>| if p.len() > 0 && p.last() == '\r' { p.drop_last() } else { p });
    if pieces.last().len() > 0 { ended.push(pieces.last()) } else { ended }
}

/// Whether a config line sets `file`.
pub open spec fn sets_file(line: Seq<char>) -> bool {
    let t = trim_start(line);
    t.len() >= 4 && t.take(4) == "file"@ && {
        let rest = trim_start(t.skip(4));
        rest.len() > 0 && rest[0] == '='
    }
}

/// The first line among the first `k` that sets `file`, if any.
pub open spec fn first_setting(lines: Seq<Seq<char>>, k: int) -> Option<int>
    decreases k,
{
    if k <= 0 {
        None
    } else {
        match first_setting(lines, k - 1) {
            Some(i) => Some(i),
            None => if sets_file(lines[k - 1]) { Some(k - 1) } else { None },
        }
    }
}

/// The config text with `file` set to `ledger`, keeping everything else.
pub open spec fn with_file_text(existing: Option<Seq<char>>, ledger: Seq<char>) -> Seq<char> {
    let setting = "file = "@ + toml_quoted(ledger);
    match existing {
        Some(e) if trimmed(e).len() > 0 => {
            let lines = text_lines(e);
            let out = match first_setting(lines, lines.len() as int) {
                Some(i) => lines.update(i, setting),
                None => lines.push(setting),
            };
            crate::text::chars::joined(out, '\n') + seq!['\n']
        },
        _ => "# ledr's settings. See FILES in `man ledr`.\n\n# The ledger to read when neither -f nor LEDR_FILE is given\n"@
            + setting + seq!['\n'],
    }
}

fn lead_count(v: &Vec<char>, from: usize) -> (r: usize)
    requires
        from <= v@.len(),
    ensures
        from + lead_spaces(v@.skip(from as int)) == r,
        r <= v@.len(),
{
    let mut k: usize = from;
    while k < v.len() && crate::text::chars::is_space_char(v[k])
        invariant
            from <= k <= v@.len(),
            from + lead_spaces(v@.skip(from as int)) == k + lead_spaces(v@.skip(k as int)),
        decreases v@.len() - k,
    {
        assert(v@.skip(k as int).skip(1) =~= v@.skip(k + 1));
        k = k + 1;
    }
    k
}

fn sets_file_line(line: &Vec<char>) -> (r: bool)
    ensures
        r == sets_file(line@),
{
    let start = lead_count(line, 0);
    assert(line@.skip(0) =~= line@);
    let ghost t = trim_start(line@);
    assert(t =~= line@.skip(start as int));
    proof { reveal_strlit("file"); }
    if line.len() - start < 4 {
        return false;
    }
    if !(line[start] == 'f' && line[start + 1] == 'i' && line[start + 2] == 'l' && line[start + 3] == 'e') {
        assert(t.take(4) != "file"@) by {
            if t.take(4) == "file"@ {
                assert(t.take(4)[0] == 'f' && t.take(4)[1] == 'i' && t.take(4)[2] == 'l' && t.take(4)[3] == 'e');
            }
        }
        return false;
    }
    assert(t.take(4) =~= "file"@);
    let after = lead_count(line, start + 4);
    assert(t.skip(4) =~= line@.skip(start + 4));
    proof { lemma_lead_spaces(line@.skip(start + 4)); }
    assert(trim_start(t.skip(4)) =~= line@.skip(after as int));
    after < line.len() && line[after] == '='
}

pub(crate) fn text_lines_of(text: &str) -> (r: Vec<Vec<char>>)
    ensures
        r.deep_view() == text_lines(text@),
{
    let c = chars_of(text);
    let pieces = split_chars(&c, '\n');
    proof { crate::text::chars::lemma_split_on_nonempty(text@, '\n'); }
    let ghost pv = pieces.deep_view();
    let n = pieces.len();
    let mut out: Vec<Vec<char>> = Vec::new();
    let mut i: usize = 0;
    let ghost ended = pv.drop_last().map_values(|p: Seq<char>| if p.len() > 0 && p.last() == '\r' { p.drop_last() } else { p });
    while i + 1 < n
        invariant
            n == pieces@.len(),
            n >= 1,
            i < n,
            pv == pieces.deep_view(),
            ended == pv.drop_last().map_values(|p: Seq<char>| if p.len() > 0 && p.last() == '\r' { p.drop_last() } else { p }),
            out.deep_view() == ended.take(i as int),
        decreases n - i,
    {
        let p = &pieces[i];
        assert(pv[i as int] == p@);
        let mut line: Vec<char> = Vec::new();
        let m = p.len();
        let keep = if m > 0 && p[m - 1] == '\r' { m - 1 } else { m };
        let mut k: usize = 0;
        while k < keep
            invariant
                k <= keep <= p@.len(),
                line@ == p@.take(k as int),
            decreases keep - k,
        {
            line.push(p[k]);
            assert(p@.take(k + 1) =~= p@.take(k as int).push(p@[k as int]));
            k = k + 1;
        }
        assert(line@ == ended[i as int]);
        let ghost prev = out.deep_view();
        assert(line.deep_view() =~= line@);
        out.push(line);
        assert(out.deep_view() =~= prev.push(ended[i as int]));
        assert(ended.take(i + 1) =~= ended.take(i as int).push(ended[i as int]));
        i = i + 1;
    }
    assert(ended.take(i as int) =~= ended);
    let last = &pieces[n - 1];
    assert(pv[n - 1] == last@);
    if last.len() > 0 {
        let mut copy: Vec<char> = Vec::new();
        let mut k: usize = 0;
        while k < last.len()
            invariant
                k <= last@.len(),
                copy@ == last@.take(k as int),
            decreases last@.len() - k,
        {
            copy.push(last[k]);
            assert(last@.take(k + 1) =~= last@.take(k as int).push(last@[k as int]));
            k = k + 1;
        }
        assert(last@.take(last@.len() as int) =~= last@);
        let ghost prev = out.deep_view();
        assert(copy.deep_view() =~= copy@);
        out.push(copy);
        assert(out.deep_view() =~= prev.push(last@));
    }
    out
}

/// The config text with `file` set to `ledger`, keeping everything else in
/// it as it was, comments included
pub fn with_file(existing: Option<&str>, ledger: &str) -> (r: String)
    ensures
        r@ == with_file_text(opt_chars(existing), ledger@),
{
    let mut setting: Vec<char> = Vec::new();
    extend_chars(&mut setting, "file = ");
    let quoted = toml_string(ledger);
    extend_chars(&mut setting, quoted.as_str());
    let nonblank = match existing {
        Some(e) => trim_chars(&chars_of(e)).len() > 0,
        None => false,
    };
    if !nonblank {
        let mut out: Vec<char> = Vec::new();
        extend_chars(&mut out, "# ledr's settings. See FILES in `man ledr`.\n\n# The ledger to read when neither -f nor LEDR_FILE is given\n");
        let ss = string_of(&setting);
        extend_chars(&mut out, ss.as_str());
        out.push('\n');
        return string_of(&out);
    }
    let e = match existing {
        Some(e) => e,
        None => "",
    };
    let mut lines = text_lines_of(e);
    let ghost lv = lines.deep_view();
    let mut found: Option<usize> = None;
    let mut i: usize = 0;
    while i < lines.len()
        invariant
            i <= lines@.len(),
            lv == lines.deep_view(),
            match found {
                Some(j) => first_setting(lv, i as int) == Some(j as int) && j < i,
                None => first_setting(lv, i as int) is None,
            },
        decreases lines@.len() - i,
    {
        if found.is_none() {
            assert(lv[i as int] == lines@[i as int]@);
            if sets_file_line(&lines[i]) {
                found = Some(i);
            }
        }
        i = i + 1;
    }
    let ghost with_setting = match first_setting(lv, lv.len() as int) {
        Some(j) => lv.update(j, setting@),
        None => lv.push(setting@),
    };
    match found {
        Some(j) => {
            assert(setting.deep_view() =~= setting@);
            let ghost prev = lines@;
            lines.set(j, setting);
            assert(lines@ == prev.update(j as int, setting));
            assert(lines.deep_view() =~= with_setting);
        },
        None => {
            let ghost prev = lines.deep_view();
            assert(setting.deep_view() =~= setting@);
            lines.push(setting);
            assert(lines.deep_view() =~= with_setting);
        },
    }
    let mut out: Vec<char> = Vec::new();
    crate::text::chars::push_joined(&mut out, &lines, '\n');
    out.push('\n');
    string_of(&out)
}

} // verus!
