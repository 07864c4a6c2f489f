//! REPL settings: history line-editing and where the history is kept,
//! read from a minimal `key = value` text.

use vstd::prelude::*;
use crate::text::{chars_of, char_is_whitespace, is_whitespace, string_of_chars};

verus! {

/// REPL configuration. Defaults apply where the text says nothing.
#[derive(Debug, Clone)]
pub struct Config {
    /// History navigation and line editing (Up/Down arrows).
    pub history: bool,
    /// Where the history is read from and written to.
    pub history_file: String,
}

impl View for Config {
    type V = (bool, Seq<char>);

    open spec fn view(&self) -> (bool, Seq<char>) {
        (self.history, self.history_file@)
    }
}

/// Name for `Path::join` of a base and a further part, as text.
pub uninterp spec fn path_join_text(base: Seq<char>, rest: Seq<char>) -> Seq<char>;

/// `Path::new(base).join(rest)` as a string (`to_string_lossy`, which
/// changes nothing in a path made of two strings).
#[verifier::external_body]
fn path_join(base: &str, rest: &str) -> (r: String)
    ensures
        r@ == path_join_text(base@, rest@),
{
    std::path::Path::new(base).join(rest).to_string_lossy().into_owned()
}

/// The ASCII lower case of a character (`char::to_ascii_lowercase`).
pub open spec fn ascii_lower(c: char) -> char {
    if 'A' <= c <= 'Z' {
        ((c as u32) + 32) as char
    } else {
        c
    }
}

/// The ASCII lower case of a character (what `char::to_ascii_lowercase`
/// does): `A`..`Z` become `a`..`z`, every other character stays.
fn to_ascii_lower(c: char) -> (r: char)
    ensures
        r == ascii_lower(c),
{
    if 'A' <= c && c <= 'Z' {
        let b: u8 = c as u8;
        assert(b == c as u32);
        ((b + 32) as char)
    } else {
        c
    }
}

pub open spec fn lower_text(s: Seq<char>) -> Seq<char> {
    s.map_values(|c: char| ascii_lower(c))
}

/// A boolean setting: `true`/`1`/`yes`/`on` and `false`/`0`/`no`/`off` in
/// any ASCII case; anything else keeps the default.
pub open spec fn parse_bool_spec(value: Seq<char>, default: bool) -> bool {
    let v = lower_text(value);
    if v == "true"@ || v == "1"@ || v == "yes"@ || v == "on"@ {
        true
    } else if v == "false"@ || v == "0"@ || v == "no"@ || v == "off"@ {
        false
    } else {
        default
    }
}

fn chars_match(a: &Vec<char>, b: &str) -> (r: bool)
    ensures
        r == (a@ == b@),
{
    let bc = chars_of(b);
    if a.len() != bc.len() {
        return false;
    }
    let mut i: usize = 0;
    while i < a.len()
        invariant
            a.len() == bc.len(),
            bc@ == b@,
            i <= a.len(),
            forall|k: int| 0 <= k < i ==> a@[k] == bc@[k],
        decreases a.len() - i,
    {
        if a[i] != bc[i] {
            return false;
        }
        i += 1;
    }
    proof {
        assert(a@ =~= bc@);
    }
    true
}

/// Reads a boolean setting, keeping `default` for an unknown word.
pub fn parse_bool(value: &str, default: bool) -> (r: bool)
    ensures
        r == parse_bool_spec(value@, default),
{
    let cs = chars_of(value);
    let mut lower: Vec<char> = Vec::new();
    let mut i: usize = 0;
    while i < cs.len()
        invariant
            cs@ == value@,
            i <= cs.len(),
            lower@ == lower_text(value@).take(i as int),
        decreases cs.len() - i,
    {
        lower.push(to_ascii_lower(cs[i]));
        proof {
            assert(lower@ =~= lower_text(value@).take(i + 1));
        }
        i += 1;
    }
    proof {
        assert(lower@ =~= lower_text(value@));
    }
    if chars_match(&lower, "true") || chars_match(&lower, "1") || chars_match(&lower, "yes") || chars_match(
        &lower,
        "on",
    ) {
        true
    } else if chars_match(&lower, "false") || chars_match(&lower, "0") || chars_match(&lower, "no")
        || chars_match(&lower, "off") {
        false
    } else {
        default
    }
}

/// A value starting `~/` under the home directory (when there is one);
/// any other value as it is.
pub open spec fn expand_tilde_spec(value: Seq<char>, home: Option<Seq<char>>) -> Seq<char> {
    if value.len() >= 2 && value[0] == '~' && value[1] == '/' && home is Some {
        path_join_text(home->0, value.skip(2))
    } else {
        value
    }
}

/// Expands a leading `~/` to the home directory.
pub fn expand_tilde(value: &str, home: Option<&str>) -> (r: String)
    ensures
        r@ == expand_tilde_spec(value@, match home {
            Some(h) => Some(h@),
            None => None,
        }),
{
    let cs = chars_of(value);
    if cs.len() >= 2 && cs[0] == '~' && cs[1] == '/' {
        if let Some(h) = home {
            let rest = string_of_chars(&cs, 2, cs.len());
            proof {
                assert(cs@.subrange(2, cs.len() as int) =~= value@.skip(2));
            }
            return path_join(h, rest.as_str());
        }
    }
    String::from_str(value)
}

/// The characters with leading and trailing whitespace removed
/// (`str::trim`).
pub open spec fn trim_start(s: Seq<char>) -> Seq<char>
    decreases s.len(),
{
    if s.len() > 0 && char_is_whitespace(s[0]) {
        trim_start(s.skip(1))
    } else {
        s
    }
}

pub open spec fn trim_end(s: Seq<char>) -> Seq<char>
    decreases s.len(),
{
    if s.len() > 0 && char_is_whitespace(s.last()) {
        trim_end(s.drop_last())
    } else {
        s
    }
}

pub open spec fn trim(s: Seq<char>) -> Seq<char> {
    trim_end(trim_start(s))
}

/// The first position of `c`.
pub open spec fn first_index(s: Seq<char>, c: char) -> Option<int>
    decreases s.len(),
{
    if s.len() == 0 {
        None
    } else if s[0] == c {
        Some(0)
    } else {
        match first_index(s.skip(1), c) {
            Some(i) => Some(i + 1),
            None => None,
        }
    }
}

/// The lines of a text, split at line feeds; a last empty line is no line.
pub open spec fn text_lines(s: Seq<char>) -> Seq<Seq<char>>
    decreases s.len(),
{
    match first_index(s, '\n') {
        Some(i) => if 0 <= i < s.len() {
            seq![s.take(i)] + text_lines(s.skip(i + 1))
        } else {
            Seq::empty()
        },
        None => if s.len() == 0 {
            Seq::empty()
        } else {
            seq![s]
        },
    }
}

/// One setting line, already trimmed: blank lines, `#` comments, lines
/// without `=` and unknown keys change nothing.
pub open spec fn apply_line(cfg: (bool, Seq<char>), line: Seq<char>, home: Option<Seq<char>>) -> (bool, Seq<char>) {
    if line.len() == 0 || line[0] == '#' {
        cfg
    } else {
        match first_index(line, '=') {
            None => cfg,
            Some(i) => {
                let key = trim(line.take(i));
                let value = trim(line.skip(i + 1));
                if key == "history"@ {
                    (parse_bool_spec(value, cfg.0), cfg.1)
                } else if key == "history_file"@ {
                    (cfg.0, expand_tilde_spec(value, home))
                } else {
                    cfg
                }
            },
        }
    }
}

/// The settings after every line, in order.
pub open spec fn apply_lines(cfg: (bool, Seq<char>), lines: Seq<Seq<char>>, home: Option<Seq<char>>) -> (bool, Seq<char>)
    decreases lines.len(),
{
    if lines.len() == 0 {
        cfg
    } else {
        apply_lines(apply_line(cfg, trim(lines[0]), home), lines.skip(1), home)
    }
}

/// A trimmed line that sets `history` or `history_file`.
pub open spec fn sets_a_key(line: Seq<char>) -> bool {
    &&& line.len() > 0
    &&& line[0] != '#'
    &&& first_index(line, '=') matches Some(i) && (trim(line.take(i)) == "history"@ || trim(line.take(i))
        == "history_file"@)
}

/// Lines that set no known key (blank lines, comments, lines without `=`,
/// unknown keys) leave the settings as they were.
pub proof fn lemma_unknown_lines_ignored(cfg: (bool, Seq<char>), lines: Seq<Seq<char>>, home: Option<Seq<char>>)
    requires
        forall|k: int| 0 <= k < lines.len() ==> !sets_a_key(#[trigger] trim(lines[k])),
    ensures
        apply_lines(cfg, lines, home) == cfg,
    decreases lines.len(),
{
    if lines.len() > 0 {
        assert(!sets_a_key(trim(lines[0])));
        assert forall|k: int| 0 <= k < lines.skip(1).len() implies !sets_a_key(#[trigger] trim(lines.skip(1)[k])) by {
            assert(lines.skip(1)[k] == lines[k + 1]);
        }
        lemma_unknown_lines_ignored(cfg, lines.skip(1), home);
    }
}

pub open spec fn opt_text(o: Option<&str>) -> Option<Seq<char>> {
    match o {
        Some(h) => Some(h@),
        None => None,
    }
}

proof fn lemma_first_index(s: Seq<char>, c: char)
    ensures
        match first_index(s, c) {
            Some(i) => 0 <= i < s.len() && s[i] == c && forall|k: int| 0 <= k < i ==> s[k] != c,
            None => forall|k: int| 0 <= k < s.len() ==> s[k] != c,
        },
    decreases s.len(),
{
    if s.len() > 0 {
        lemma_first_index(s.skip(1), c);
        if s[0] != c {
            match first_index(s.skip(1), c) {
                Some(i) => {
                    assert forall|k: int| 0 <= k < i + 1 implies s[k] != c by {
                        if k > 0 {
                            assert(s[k] == s.skip(1)[k - 1]);
                        }
                    }
                },
                None => {
                    assert forall|k: int| 0 <= k < s.len() implies s[k] != c by {
                        if k > 0 {
                            assert(s[k] == s.skip(1)[k - 1]);
                        }
                    }
                },
            }
        }
    }
}

/// The position of the first `c` from `from` on, or the end.
fn find_from(cs: &Vec<char>, from: usize, c: char) -> (r: usize)
    requires
        from <= cs.len(),
    ensures
        from <= r <= cs.len(),
        r < cs.len() ==> cs@[r as int] == c,
        forall|k: int| from <= k < r ==> cs@[k] != c,
{
    let mut j = from;
    while j < cs.len() && cs[j] != c
        invariant
            from <= j <= cs.len(),
            forall|k: int| from <= k < j ==> cs@[k] != c,
        decreases cs.len() - j,
    {
        j += 1;
    }
    j
}

proof fn lemma_first_index_at(s: Seq<char>, c: char, i: int)
    requires
        0 <= i <= s.len(),
        i < s.len() ==> s[i] == c,
        forall|k: int| 0 <= k < i ==> s[k] != c,
    ensures
        i < s.len() ==> first_index(s, c) == Some(i),
        i == s.len() ==> first_index(s, c) is None,
{
    lemma_first_index(s, c);
    match first_index(s, c) {
        Some(j) => {
            if i < s.len() {
                assert(!(j < i));
                if j > i {
                    assert(s[i] != c);
                }
            } else {
                assert(s[j] != c);
            }
        },
        None => {
            if i < s.len() {
                assert(s[i] != c);
            }
        },
    }
}

/// The characters `cs[lo..hi]` without leading and trailing whitespace.
pub(crate) fn trimmed(cs: &Vec<char>, lo: usize, hi: usize) -> (r: Vec<char>)
    requires
        lo <= hi <= cs.len(),
    ensures
        r@ == trim(cs@.subrange(lo as int, hi as int)),
{
    let mut a = lo;
    while a < hi && is_whitespace(cs[a])
        invariant
            lo <= a <= hi,
            hi <= cs.len(),
            trim_start(cs@.subrange(lo as int, hi as int)) == trim_start(cs@.subrange(a as int, hi as int)),
        decreases hi - a,
    {
        proof {
            assert(cs@.subrange(a as int, hi as int).skip(1) =~= cs@.subrange(a + 1, hi as int));
        }
        a += 1;
    }
    let mut b = hi;
    proof {
        assert(trim_start(cs@.subrange(a as int, hi as int)) == cs@.subrange(a as int, hi as int));
    }
    while b > a && is_whitespace(cs[b - 1])
        invariant
            lo <= a <= b <= hi,
            hi <= cs.len(),
            trim(cs@.subrange(lo as int, hi as int)) == trim_end(cs@.subrange(a as int, b as int)),
        decreases b - a,
    {
        proof {
            assert(cs@.subrange(a as int, b as int).drop_last() =~= cs@.subrange(a as int, b - 1));
        }
        b -= 1;
    }
    let mut out: Vec<char> = Vec::new();
    let mut k = a;
    while k < b
        invariant
            a <= k <= b,
            b <= cs.len(),
            out@ == cs@.subrange(a as int, k as int),
        decreases b - k,
    {
        out.push(cs[k]);
        proof {
            assert(out@ =~= cs@.subrange(a as int, k + 1));
        }
        k += 1;
    }
    out
}

fn apply_line_exec(cfg: Config, line: &Vec<char>, home: Option<&str>) -> (r: Config)
    ensures
        r@ == apply_line(cfg@, line@, opt_text(home)),
{
    if line.len() == 0 || line[0] == '#' {
        return cfg;
    }
    let eq = find_from(line, 0, '=');
    proof {
        lemma_first_index_at(line@, '=', eq as int);
    }
    if eq == line.len() {
        return cfg;
    }
    let key = trimmed(line, 0, eq);
    let value = trimmed(line, eq + 1, line.len());
    proof {
        assert(line@.subrange(0, eq as int) =~= line@.take(eq as int));
        assert(line@.subrange(eq + 1, line.len() as int) =~= line@.skip(eq + 1));
    }
    let value_text = string_of_chars(&value, 0, value.len());
    proof {
        assert(value@.subrange(0, value.len() as int) =~= value@);
    }
    if chars_match(&key, "history") {
        Config { history: parse_bool(value_text.as_str(), cfg.history), history_file: cfg.history_file }
    } else if chars_match(&key, "history_file") {
        Config { history: cfg.history, history_file: expand_tilde(value_text.as_str(), home) }
    } else {
        cfg
    }
}

impl Config {
    /// The defaults: history on, kept in `.nat_calc_history` under the home
    /// directory (or the current one).
    pub fn defaults(home: Option<&str>) -> (r: Config)
        ensures
            r@ == (true, path_join_text(
                match home {
                    Some(h) => h@,
                    None => "."@,
                },
                ".nat_calc_history"@,
            )),
    {
        let base = match home {
            Some(h) => h,
            None => ".",
        };
        Config { history: true, history_file: path_join(base, ".nat_calc_history") }
    }

    /// The settings after the lines of a configuration text: each line is
    /// trimmed; blank lines, `#` comments, lines without `=` and unknown
    /// keys are skipped; `history` takes a boolean and `history_file` a
    /// path, where a leading `~/` means the home directory.
    pub fn apply_text(self, text: &str, home: Option<&str>) -> (r: Config)
        ensures
            r@ == apply_lines(self@, text_lines(text@), opt_text(home)),
    {
        let cs = chars_of(text);
        let mut cfg = self;
        let mut pos: usize = 0;
        proof {
            assert(cs@.skip(0) =~= cs@);
        }
        while pos < cs.len()
            invariant
                cs@ == text@,
                pos <= cs.len(),
                apply_lines(self@, text_lines(text@), opt_text(home)) == apply_lines(
                    cfg@,
                    text_lines(cs@.skip(pos as int)),
                    opt_text(home),
                ),
            decreases cs.len() - pos,
        {
            let end = find_from(&cs, pos, '\n');
            let ghost rest = cs@.skip(pos as int);
            proof {
                assert forall|k: int| 0 <= k < end - pos implies rest[k] != '\n' by {
                    assert(rest[k] == cs@[pos + k]);
                }
                if end < cs.len() {
                    assert(rest[end - pos] == '\n');
                }
                lemma_first_index_at(rest, '\n', end - pos);
                assert(rest.take(end - pos) =~= cs@.subrange(pos as int, end as int));
                if end < cs.len() {
                    assert(rest.skip(end - pos + 1) =~= cs@.skip(end + 1));
                    assert(text_lines(rest) == seq![rest.take(end - pos)] + text_lines(rest.skip(end - pos + 1)));
                } else {
                    assert(rest.len() > 0);
                    assert(rest =~= cs@.subrange(pos as int, end as int));
                    assert(text_lines(rest) == seq![rest]);
                    assert(cs@.skip(end as int) =~= Seq::<char>::empty());
                    assert(text_lines(cs@.skip(end as int)) =~= Seq::<Seq<char>>::empty());
                }
                let ls = text_lines(rest);
                assert(ls[0] == cs@.subrange(pos as int, end as int));
                assert(ls.skip(1) =~= text_lines(if end < cs.len() { cs@.skip(end + 1) } else { cs@.skip(end as int) }));
            }
            let line = trimmed(&cs, pos, end);
            cfg = apply_line_exec(cfg, &line, home);
            if end < cs.len() {
                pos = end + 1;
            } else {
                pos = end;
            }
        }
        proof {
            assert(cs@.skip(pos as int) =~= Seq::<char>::empty());
            assert(text_lines(cs@.skip(pos as int)) =~= Seq::<Seq<char>>::empty());
        }
        cfg
    }
}

} // verus!
