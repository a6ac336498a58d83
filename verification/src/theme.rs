//! Reading a terminal colour theme: the name of the active theme, and the
//! background, foreground and accent colours out of its settings text.
use crate::text::{owned, starts_with, str_eq};
use crate::ui::opt_text;
use vstd::prelude::*;
use vstd::string::*;

verus! {

/// The sets of characters that get stripped off the ends of a piece of text.
#[derive(Clone, Copy, PartialEq, Eq, Debug, Structural)]
pub enum Strip {
    /// Unicode white space, as `char::is_whitespace` knows it.
    Space,
    /// List bullets and blanks in front of a setting: `*`, `-` and ` `.
    Bullet,
    /// Quotes and blanks around a value: `"`, `'`, ` ` and tab.
    Quote,
}

/// The characters with Unicode's White_Space property.
pub open spec fn is_space(c: char) -> bool {
    let n = c as u32;
    ||| 9 <= n <= 13
    ||| n == 32
    ||| n == 0x85
    ||| n == 0xa0
    ||| n == 0x1680
    ||| 0x2000 <= n <= 0x200a
    ||| n == 0x2028
    ||| n == 0x2029
    ||| n == 0x202f
    ||| n == 0x205f
    ||| n == 0x3000
}

/// `c` belongs to the set `k`.
pub open spec fn in_strip(c: char, k: Strip) -> bool {
    match k {
        Strip::Space => is_space(c),
        Strip::Bullet => c == '*' || c == '-' || c == ' ',
        Strip::Quote => c == '"' || c == '\'' || c == ' ' || c == '\t',
    }
}

/// `s` without its leading characters of set `k`.
pub open spec fn strip_front(s: Seq<char>, k: Strip) -> Seq<char>
    decreases s.len(),
{
    if s.len() > 0 && in_strip(s[0], k) {
        strip_front(s.drop_first(), k)
    } else {
        s
    }
}

/// `s` without its trailing characters of set `k`.
pub open spec fn strip_back(s: Seq<char>, k: Strip) -> Seq<char>
    decreases s.len(),
{
    if s.len() > 0 && in_strip(s.last(), k) {
        strip_back(s.drop_last(), k)
    } else {
        s
    }
}

/// `s` without characters of set `k` at either end.
pub open spec fn strip_both(s: Seq<char>, k: Strip) -> Seq<char> {
    strip_back(strip_front(s, k), k)
}

/// `s` without white space at either end, as `str::trim` gives it.
pub open spec fn trimmed(s: Seq<char>) -> Seq<char> {
    strip_both(s, Strip::Space)
}

fn in_strip_exec(c: char, k: Strip) -> (b: bool)
    ensures
        b == in_strip(c, k),
{
    match k {
        Strip::Space => {
            let n = c as u32;
            (9 <= n && n <= 13) || n == 32 || n == 0x85 || n == 0xa0 || n == 0x1680 || (0x2000 <= n
                && n <= 0x200a) || n == 0x2028 || n == 0x2029 || n == 0x202f || n == 0x205f || n
                == 0x3000
        },
        Strip::Bullet => c == '*' || c == '-' || c == ' ',
        Strip::Quote => c == '"' || c == '\'' || c == ' ' || c == '\t',
    }
}

/// `s` without its leading characters of set `k`.
pub fn strip_front_str<'a>(s: &'a str, k: Strip) -> (r: &'a str)
    ensures
        r@ == strip_front(s@, k),
{
    let n = s.unicode_len();
    let mut i: usize = 0;
    assert(s@.subrange(0, n as int) =~= s@);
    while i < n && in_strip_exec(s.get_char(i), k)
        invariant
            n == s@.len(),
            i <= n,
            strip_front(s@, k) == strip_front(s@.subrange(i as int, n as int), k),
        decreases n - i,
    {
        assert(s@.subrange(i as int, n as int).drop_first() =~= s@.subrange(i + 1, n as int));
        i += 1;
    }
    s.substring_char(i, n)
}

/// `s` without its trailing characters of set `k`.
pub fn strip_back_str<'a>(s: &'a str, k: Strip) -> (r: &'a str)
    ensures
        r@ == strip_back(s@, k),
{
    let n = s.unicode_len();
    let mut j: usize = n;
    assert(s@.subrange(0, n as int) =~= s@);
    while j > 0 && in_strip_exec(s.get_char(j - 1), k)
        invariant
            n == s@.len(),
            j <= n,
            strip_back(s@, k) == strip_back(s@.subrange(0, j as int), k),
        decreases j,
    {
        assert(s@.subrange(0, j as int).drop_last() =~= s@.subrange(0, j - 1));
        j -= 1;
    }
    s.substring_char(0, j)
}

/// `s` without characters of set `k` at either end.
pub fn strip_both_str<'a>(s: &'a str, k: Strip) -> (r: &'a str)
    ensures
        r@ == strip_both(s@, k),
{
    strip_back_str(strip_front_str(s, k), k)
}

/// Position of the first `a` or `b` in `t`, or its length when neither occurs.
pub open spec fn first_of(t: Seq<char>, a: char, b: char) -> nat
    decreases t.len(),
{
    if t.len() == 0 || t[0] == a || t[0] == b {
        0
    } else {
        1 + first_of(t.drop_first(), a, b)
    }
}

/// A line without the carriage return of a "\r\n" ending.
pub open spec fn drop_cr(l: Seq<char>) -> Seq<char> {
    if l.len() > 0 && l.last() == '\r' {
        l.drop_last()
    } else {
        l
    }
}

/// The lines of `t` as `str::lines` yields them: the text is cut after
/// each line feed, which is dropped together with a carriage return just
/// before it; a final line feed starts no further line.
pub open spec fn lines_of(t: Seq<char>) -> Seq<Seq<char>>
    decreases t.len(),
{
    if t.len() == 0 {
        Seq::empty()
    } else {
        let k = first_of(t, '\n', '\n');
        if k >= t.len() {
            seq![t]
        } else {
            seq![drop_cr(t.take(k as int))] + lines_of(t.skip((k + 1) as int))
        }
    }
}

/// The first `m` characters of `t` hold neither `a` nor `b`, and `t` ends or
/// holds one of them right after.
proof fn lemma_first_of(t: Seq<char>, m: int, a: char, b: char)
    requires
        0 <= m <= t.len(),
        forall|i: int| 0 <= i < m ==> t[i] != a && t[i] != b,
        m == t.len() || t[m] == a || t[m] == b,
    ensures
        first_of(t, a, b) == m,
    decreases m,
{
    if m > 0 {
        lemma_first_of(t.drop_first(), m - 1, a, b);
    }
}

/// Bytes that `c` takes in UTF-8.
pub open spec fn utf8_width(c: char) -> int {
    let n = c as u32;
    if n < 0x80 {
        1
    } else if n < 0x800 {
        2
    } else if n < 0x10000 {
        3
    } else {
        4
    }
}

/// Bytes that `s` takes in UTF-8, which `str::len` counts.
pub open spec fn utf8_len(s: Seq<char>) -> int
    decreases s.len(),
{
    if s.len() == 0 {
        0
    } else {
        utf8_len(s.drop_last()) + utf8_width(s.last())
    }
}

proof fn lemma_utf8_prefix(s: Seq<char>, i: int)
    requires
        0 <= i <= s.len(),
    ensures
        i <= utf8_len(s.take(i)) <= utf8_len(s),
    decreases s.len(),
{
    if s.len() > 0 {
        if i == s.len() {
            assert(s.take(i) =~= s);
            lemma_utf8_prefix(s.drop_last(), i - 1);
            assert(s.drop_last().take(i - 1) =~= s.take(i - 1));
            assert(s.take(i).drop_last() =~= s.take(i - 1));
        } else {
            lemma_utf8_prefix(s.drop_last(), i);
            assert(s.drop_last().take(i) =~= s.take(i));
        }
    } else {
        assert(s.take(i) =~= s);
    }
}

/// `p` occurs in `s`.
pub open spec fn has_infix(s: Seq<char>, p: Seq<char>) -> bool {
    exists|i: int| 0 <= i && i + p.len() <= s.len() && #[trigger] s.subrange(i, i + p.len()) == p
}

/// A colour value: `#` and three or six more bytes, as in `#fff` or `#1e1e2e`.
pub open spec fn is_colour(v: Seq<char>) -> bool {
    v.len() > 0 && v[0] == '#' && (utf8_len(v) == 7 || utf8_len(v) == 4)
}

/// A key whose colour serves as the accent.
pub open spec fn accent_key(key: Seq<char>) -> bool {
    ||| key == "cyan"@
    ||| key == "blue"@
    ||| has_infix(key, "accent"@)
    ||| key == "color14"@
    ||| key == "color12"@
}

/// The colours found so far: background, foreground and accent.
pub struct Colours {
    pub bg: Option<String>,
    pub fg: Option<String>,
    pub accent: Option<String>,
}

impl Colours {
    pub open spec fn seen(&self) -> (Option<Seq<char>>, Option<Seq<char>>, Option<Seq<char>>) {
        (opt_text(self.bg), opt_text(self.fg), opt_text(self.accent))
    }
}

/// What the setting `key` = `v` adds to the colours `st`: a colour value
/// under a background key fills the background, under a foreground key the
/// foreground, and under an accent key the accent, each only once and in
/// that order of preference.
pub open spec fn took(
    st: (Option<Seq<char>>, Option<Seq<char>>, Option<Seq<char>>),
    key: Seq<char>,
    v: Seq<char>,
) -> (Option<Seq<char>>, Option<Seq<char>>, Option<Seq<char>>) {
    if !is_colour(v) {
        st
    } else if has_infix(key, "background"@) && st.0 is None {
        (Some(v), st.1, st.2)
    } else if has_infix(key, "foreground"@) && st.1 is None {
        (st.0, Some(v), st.2)
    } else if st.2 is None && accent_key(key) {
        (st.0, st.1, Some(v))
    } else {
        st
    }
}

// The characters of `s` in lower case, as `str::to_lowercase` maps them.
pub uninterp spec fn lowercase(s: Seq<char>) -> Seq<char>;

/// What one line of settings adds to the colours `st`. A line with
/// neither `=` nor `:` (a section header, a comment) adds nothing. Blanks
/// and list bullets in front are skipped; the key, in lower case, runs to
/// the first `=` or `:`; the value after it loses blanks and quotes at its
/// ends.
pub open spec fn read_line(
    st: (Option<Seq<char>>, Option<Seq<char>>, Option<Seq<char>>),
    line: Seq<char>,
) -> (Option<Seq<char>>, Option<Seq<char>>, Option<Seq<char>>) {
    let l = strip_front(trimmed(line), Strip::Bullet);
    let k = first_of(l, '=', ':');
    if k >= l.len() {
        st
    } else {
        took(
            st,
            lowercase(trimmed(l.take(k as int))),
            strip_both(trimmed(l.skip((k + 1) as int)), Strip::Quote),
        )
    }
}

/// The colours after reading the lines `ls` in order from `st`.
pub open spec fn read_lines(
    st: (Option<Seq<char>>, Option<Seq<char>>, Option<Seq<char>>),
    ls: Seq<Seq<char>>,
) -> (Option<Seq<char>>, Option<Seq<char>>, Option<Seq<char>>)
    decreases ls.len(),
{
    if ls.len() == 0 {
        st
    } else {
        read_lines(read_line(st, ls[0]), ls.drop_first())
    }
}

/// Background, foreground and accent of a theme's settings text: both of
/// the first two must be found; the accent falls back to the foreground.
pub open spec fn theme_colours(text: Seq<char>) -> Option<(Seq<char>, Seq<char>, Seq<char>)> {
    match read_lines((None, None, None), lines_of(text)) {
        (Some(bg), Some(fg), acc) => Some(
            (
                bg,
                fg,
                match acc {
                    Some(a) => a,
                    None => fg,
                },
            ),
        ),
        _ => None,
    }
}

/// Calls `str::to_lowercase`; its result is taken to be `lowercase` of the
/// text's characters, a function of them alone.
#[verifier::external_body]
fn to_lower(s: &str) -> (r: String)
    ensures
        r@ == lowercase(s@),
{
    s.to_lowercase()
}

/// Whether `p` occurs in `s`.
pub fn contains_str(s: &str, p: &str) -> (b: bool)
    ensures
        b == has_infix(s@, p@),
{
    let n = s.unicode_len();
    let m = p.unicode_len();
    if m > n {
        return false;
    }
    let mut i: usize = 0;
    while i <= n - m
        invariant
            n == s@.len(),
            m == p@.len(),
            m <= n,
            i <= n - m,
            forall|j: int| 0 <= j < i ==> #[trigger] s@.subrange(j, j + m) != p@,
        decreases n - m + 1 - i,
    {
        let rest = s.substring_char(i, n);
        if starts_with(rest, p) {
            assert(rest@.subrange(0, m as int) =~= s@.subrange(i as int, i + m));
            return true;
        }
        assert(rest@.subrange(0, m as int) =~= s@.subrange(i as int, i + m));
        if i == n - m {
            return false;
        }
        i += 1;
    }
    false
}

/// Whether `v` is a colour value.
fn is_colour_str(v: &str) -> (b: bool)
    ensures
        b == is_colour(v@),
{
    let n = v.unicode_len();
    if n == 0 || v.get_char(0) != '#' {
        return false;
    }
    let mut acc: usize = 0;
    let mut i: usize = 0;
    while i < n
        invariant
            n == v@.len(),
            i <= n,
            acc == utf8_len(v@.take(i as int)),
            acc <= 7,
        decreases n - i,
    {
        let c = v.get_char(i);
        let u = c as u32;
        let w: usize = if u < 0x80 {
            1
        } else if u < 0x800 {
            2
        } else if u < 0x10000 {
            3
        } else {
            4
        };
        proof {
            assert(v@.take(i + 1).drop_last() =~= v@.take(i as int));
        }
        if acc + w > 7 {
            proof {
                lemma_utf8_prefix(v@, i + 1);
            }
            return false;
        }
        acc = acc + w;
        i += 1;
    }
    proof {
        assert(v@.take(n as int) =~= v@);
    }
    acc == 7 || acc == 4
}

/// What the setting `key` = `v` adds to the colours `st`, `key` already in
/// lower case.
pub fn take_colour(st: Colours, key: &str, v: &str) -> (r: Colours)
    ensures
        r.seen() == took(st.seen(), key@, v@),
{
    if !is_colour_str(v) {
        return st;
    }
    if contains_str(key, "background") && st.bg.is_none() {
        Colours { bg: Some(owned(v)), fg: st.fg, accent: st.accent }
    } else if contains_str(key, "foreground") && st.fg.is_none() {
        Colours { bg: st.bg, fg: Some(owned(v)), accent: st.accent }
    } else if st.accent.is_none() && (str_eq(key, "cyan") || str_eq(key, "blue") || contains_str(
        key,
        "accent",
    ) || str_eq(key, "color14") || str_eq(key, "color12")) {
        Colours { bg: st.bg, fg: st.fg, accent: Some(owned(v)) }
    } else {
        st
    }
}

/// What one line of settings adds to the colours `st`.
fn read_setting(line: &str, st: Colours) -> (r: Colours)
    ensures
        r.seen() == read_line(st.seen(), line@),
{
    let l = strip_front_str(strip_both_str(line, Strip::Space), Strip::Bullet);
    let n = l.unicode_len();
    let mut k: usize = 0;
    while k < n && l.get_char(k) != '=' && l.get_char(k) != ':'
        invariant
            n == l@.len(),
            k <= n,
            forall|i: int| 0 <= i < k ==> l@[i] != '=' && l@[i] != ':',
        decreases n - k,
    {
        k += 1;
    }
    proof {
        lemma_first_of(l@, k as int, '=', ':');
    }
    if k >= n {
        return st;
    }
    let key = to_lower(strip_both_str(l.substring_char(0, k), Strip::Space));
    let v = strip_both_str(strip_both_str(l.substring_char(k + 1, n), Strip::Space), Strip::Quote);
    proof {
        assert(l@.subrange(0, k as int) =~= l@.take(k as int));
        assert(l@.subrange(k + 1, n as int) =~= l@.skip(k + 1));
    }
    take_colour(st, key.as_str(), v)
}

/// A terminal theme's name and colours.
pub struct Theme {
    pub name: String,
    pub bg: String,
    pub fg: String,
    pub accent: String,
}

/// The theme called `name` whose settings are `text`, when both its
/// background and its foreground can be read there.
pub fn parse_theme(name: &str, text: &str) -> (r: Option<Theme>)
    ensures
        match theme_colours(text@) {
            None => r is None,
            Some(c) => r matches Some(th) && th.name@ == name@ && th.bg@ == c.0 && th.fg@ == c.1
                && th.accent@ == c.2,
        },
{
    let n = text.unicode_len();
    let mut st = Colours { bg: None, fg: None, accent: None };
    let mut start: usize = 0;
    proof {
        assert(text@.skip(0) =~= text@);
    }
    while start < n
        invariant
            n == text@.len(),
            start <= n,
            read_lines((None, None, None), lines_of(text@)) == read_lines(st.seen(), lines_of(text@.skip(start as int))),
        decreases n - start,
    {
        let ghost u = text@.skip(start as int);
        let mut j: usize = start;
        while j < n && text.get_char(j) != '\n'
            invariant
                n == text@.len(),
                start <= j <= n,
                forall|i: int| start <= i < j ==> text@[i] != '\n',
            decreases n - j,
        {
            j += 1;
        }
        proof {
            lemma_first_of(u, j - start, '\n', '\n');
        }
        let end = if j < n && j > start && text.get_char(j - 1) == '\r' {
            j - 1
        } else {
            j
        };
        let line = text.substring_char(start, end);
        let ghost s0 = st.seen();
        proof {
            let k = (j - start) as int;
            if j < n {
                assert(u.take(k) =~= text@.subrange(start as int, j as int));
                if j > start {
                    assert(u.take(k).drop_last() =~= text@.subrange(start as int, j - 1));
                }
                assert(u.skip(k + 1) =~= text@.skip(j + 1));
                assert(line@ == drop_cr(u.take(k)));
                let ls = lines_of(u);
                assert(ls[0] == line@);
                assert(ls.drop_first() =~= lines_of(text@.skip(j + 1)));
            } else {
                assert(line@ =~= u);
                assert(lines_of(u) =~= seq![u]);
                assert(lines_of(u).drop_first() =~= Seq::<Seq<char>>::empty());
                assert(text@.skip(n as int) =~= Seq::<char>::empty());
            }
        }
        proof {
            assert(lines_of(u).len() > 0 && lines_of(u)[0] == line@);
        }
        st = read_setting(line, st);
        start = if j < n {
            j + 1
        } else {
            n
        };
    }
    proof {
        assert(text@.skip(start as int) =~= Seq::<char>::empty());
    }
    let Colours { bg, fg, accent } = st;
    match (bg, fg) {
        (Some(b), Some(f)) => {
            let a = match accent {
                Some(a) => a,
                None => owned(f.as_str()),
            };
            Some(Theme { name: owned(name), bg: b, fg: f, accent: a })
        },
        _ => None,
    }
}

/// The first of `cs` that holds more than white space, trimmed.
pub open spec fn first_named(cs: Seq<Seq<char>>) -> Option<Seq<char>>
    decreases cs.len(),
{
    if cs.len() == 0 {
        None
    } else if trimmed(cs[0]).len() > 0 {
        Some(trimmed(cs[0]))
    } else {
        first_named(cs.drop_first())
    }
}

/// The texts of a list of strings.
pub open spec fn texts(v: Seq<String>) -> Seq<Seq<char>> {
    v.map_values(|s: String| s@)
}

/// The theme name out of the candidate files' contents, in order: the
/// first that holds more than white space, trimmed.
pub fn theme_name(contents: &Vec<String>) -> (r: Option<String>)
    ensures
        opt_text(r) == first_named(texts(contents@)),
{
    let ghost cs = texts(contents@);
    let mut i: usize = 0;
    proof {
        assert(cs.skip(0) =~= cs);
    }
    while i < contents.len()
        invariant
            cs == texts(contents@),
            i <= contents@.len(),
            first_named(cs) == first_named(cs.skip(i as int)),
        decreases contents@.len() - i,
    {
        let t = strip_both_str(contents[i].as_str(), Strip::Space);
        proof {
            assert(cs.skip(i as int)[0] == contents@[i as int]@);
            assert(cs.skip(i as int).drop_first() =~= cs.skip(i + 1));
        }
        if t.unicode_len() > 0 {
            return Some(owned(t));
        }
        i += 1;
    }
    proof {
        assert(cs.skip(i as int) =~= Seq::<Seq<char>>::empty());
    }
    None
}

} // verus!
