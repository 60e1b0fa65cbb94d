use vstd::prelude::*;

use crate::text::{is_white, matches_at, occurs_at, white_char};

verus! {

/// What `str::to_uppercase` returns for a text.
pub uninterp spec fn upper_of(s: Seq<char>) -> Seq<char>;

/// What `char::is_alphanumeric` returns for a character.
pub uninterp spec fn alnum_of(c: char) -> bool;

/// Relies on str::to_uppercase: the upper-case form of a text, which depends
/// on its characters alone.
#[verifier::external_body]
fn uppercase(s: &str) -> (r: String)
    ensures
        r@ == upper_of(s@),
{
    s.to_uppercase()
}

/// Relies on char::is_alphanumeric: the Unicode Alphabetic or Numeric
/// property of a character.
#[verifier::external_body]
fn alphanumeric(c: char) -> (r: bool)
    ensures
        r == alnum_of(c),
{
    c.is_alphanumeric()
}

pub open spec fn is_digit(c: char) -> bool {
    '0' <= c <= '9'
}

/// The kinds of character that end a scan.
#[derive(Clone, Copy, Debug, PartialEq, Eq, Structural)]
pub enum Stop {
    Space,
    Dash,
    Digit,
    White,
    NotWhite,
    /// Anything but a model-name character: alphanumeric, `-`, a space, and
    /// `@` where `at` is set.
    NotModel { at: bool },
    /// Anything but a digit, a space, and `-` where `dash` is set.
    NotNumber { dash: bool },
}

pub open spec fn stops(k: Stop, c: char) -> bool {
    match k {
        Stop::Space => c == ' ',
        Stop::Dash => c == '-',
        Stop::Digit => is_digit(c),
        Stop::White => is_white(c),
        Stop::NotWhite => !is_white(c),
        Stop::NotModel { at } => !(alnum_of(c) || c == '-' || c == ' ' || (at && c == '@')),
        Stop::NotNumber { dash } => !(is_digit(c) || c == ' ' || (dash && c == '-')),
    }
}

fn stops_exec(k: Stop, c: char) -> (r: bool)
    ensures
        r == stops(k, c),
{
    match k {
        Stop::Space => c == ' ',
        Stop::Dash => c == '-',
        Stop::Digit => '0' <= c && c <= '9',
        Stop::White => white_char(c),
        Stop::NotWhite => !white_char(c),
        Stop::NotModel { at } => !(alphanumeric(c) || c == '-' || c == ' ' || (at && c == '@')),
        Stop::NotNumber { dash } => !(('0' <= c && c <= '9') || c == ' ' || (dash && c == '-')),
    }
}

/// The first position at or after `i` whose character stops a scan of kind
/// `k`, or the length where none does.
pub open spec fn scan(s: Seq<char>, k: Stop, i: int) -> int
    decreases s.len() - i,
{
    if i < 0 || i >= s.len() {
        s.len() as int
    } else if stops(k, s[i]) {
        i
    } else {
        scan(s, k, i + 1)
    }
}

pub open spec fn first_stop(s: Seq<char>, k: Stop) -> int {
    scan(s, k, 0)
}

proof fn lemma_scan_bounds(s: Seq<char>, k: Stop, i: int)
    requires
        0 <= i <= s.len(),
    ensures
        i <= scan(s, k, i) <= s.len(),
    decreases s.len() - i,
{
    if i < s.len() && !stops(k, s[i]) {
        lemma_scan_bounds(s, k, i + 1);
    }
}

fn scan_exec(s: &str, n: usize, k: Stop, from: usize) -> (r: usize)
    requires
        n == s@.len(),
        from <= n,
    ensures
        r == scan(s@, k, from as int),
        from <= r <= n,
{
    let mut i: usize = from;
    proof {
        lemma_scan_bounds(s@, k, from as int);
    }
    while i < n
        invariant
            n == s@.len(),
            from <= i <= n,
            scan(s@, k, from as int) == scan(s@, k, i as int),
        decreases n - i,
    {
        if stops_exec(k, s.get_char(i)) {
            return i;
        }
        i = i + 1;
    }
    i
}

/// The first position at or after `i` where `needle` occurs in `hay`.
pub open spec fn find_from(hay: Seq<char>, needle: Seq<char>, i: int) -> Option<int>
    decreases hay.len() + 1 - i,
{
    if i < 0 || i + needle.len() > hay.len() {
        None
    } else if occurs_at(hay, needle, i) {
        Some(i)
    } else {
        find_from(hay, needle, i + 1)
    }
}

proof fn lemma_find_from_bounds(hay: Seq<char>, needle: Seq<char>, i: int)
    requires
        0 <= i,
    ensures
        find_from(hay, needle, i) matches Some(p) ==> i <= p && p + needle.len() <= hay.len(),
    decreases hay.len() + 1 - i,
{
    if i + needle.len() <= hay.len() && !occurs_at(hay, needle, i) {
        lemma_find_from_bounds(hay, needle, i + 1);
    }
}

pub(crate) fn find_exec(hay: &str, needle: &str) -> (r: Option<usize>)
    ensures
        r is None <==> find_from(hay@, needle@, 0) is None,
        r matches Some(p) ==> find_from(hay@, needle@, 0) == Some(p as int),
        r matches Some(p) ==> p + needle@.len() <= hay@.len(),
{
    let hn = hay.unicode_len();
    find_after(hay, needle, hn, 0)
}

/// The first occurrence of `needle` in `hay` at or after `from`.
pub(crate) fn find_after(hay: &str, needle: &str, hn: usize, from: usize) -> (r: Option<usize>)
    requires
        hn == hay@.len(),
    ensures
        r is None <==> find_from(hay@, needle@, from as int) is None,
        r matches Some(p) ==> find_from(hay@, needle@, from as int) == Some(p as int),
        r matches Some(p) ==> from <= p && p + needle@.len() <= hay@.len(),
{
    let nn = needle.unicode_len();
    proof {
        lemma_find_from_bounds(hay@, needle@, from as int);
    }
    if nn > hn || from > hn - nn {
        return None;
    }
    let last = hn - nn;
    let mut at: usize = from;
    loop
        invariant
            hn == hay@.len(),
            nn == needle@.len(),
            nn <= hn,
            last == hn - nn,
            from <= at <= last,
            find_from(hay@, needle@, from as int) == find_from(hay@, needle@, at as int),
        decreases last - at,
    {
        if matches_at(hay, needle, at, hn, nn) {
            return Some(at);
        }
        if at == last {
            assert(find_from(hay@, needle@, at + 1) is None);
            return None;
        }
        at = at + 1;
    }
}

/// The end of `s` once trailing white characters at or before `j` are cut.
pub open spec fn trail_from(s: Seq<char>, j: int) -> int
    decreases j,
{
    if j <= 0 || j > s.len() {
        0
    } else if !is_white(s[j - 1]) {
        j
    } else {
        trail_from(s, j - 1)
    }
}

proof fn lemma_trail_bounds(s: Seq<char>, j: int)
    requires
        0 <= j <= s.len(),
    ensures
        0 <= trail_from(s, j) <= j,
    decreases j,
{
    if j > 0 && is_white(s[j - 1]) {
        lemma_trail_bounds(s, j - 1);
    }
}

/// `s` without leading and trailing white characters.
pub open spec fn trim(s: Seq<char>) -> Seq<char> {
    let lead = first_stop(s, Stop::NotWhite);
    let tail = trail_from(s, s.len() as int);
    if lead < tail {
        s.subrange(lead, tail)
    } else {
        Seq::empty()
    }
}

/// The part of `s` between `from` and `to`, trimmed, as a new text.
fn trimmed_part(s: &str, from: usize, to: usize) -> (r: String)
    requires
        from <= to <= s@.len(),
    ensures
        r@ == trim(s@.subrange(from as int, to as int)),
{
    let part = s.substring_char(from, to);
    let n = part.unicode_len();
    let lead = scan_exec(part, n, Stop::NotWhite, 0);
    let mut tail: usize = n;
    proof {
        lemma_trail_bounds(part@, n as int);
    }
    while tail > 0 && white_char(part.get_char(tail - 1))
        invariant
            n == part@.len(),
            tail <= n,
            trail_from(part@, n as int) == trail_from(part@, tail as int),
        decreases tail,
    {
        tail = tail - 1;
    }
    if lead < tail {
        String::from_str(part.substring_char(lead, tail))
    } else {
        String::new()
    }
}

fn joined(a: &str, b: &str) -> (r: String)
    ensures
        r@ == a@ + b@,
{
    String::from_str(a).concat(b)
}

/// The position of `kw` in the upper-case text, where it also lies within
/// the full brand string.
pub open spec fn keyword_pos(full: Seq<char>, upper: Seq<char>, kw: Seq<char>) -> Option<int> {
    match find_from(upper, kw, 0) {
        Some(p) => if p <= full.len() {
            Some(p)
        } else {
            None
        },
        None => None,
    }
}

/// The model after a keyword: the text after the first space that follows
/// it, up to the first character that cannot belong to a model name,
/// trimmed.
pub open spec fn model_after(full: Seq<char>, p: int, at: bool) -> Option<Seq<char>> {
    let after = full.subrange(p, full.len() as int);
    let sp = first_stop(after, Stop::Space);
    if sp >= after.len() {
        None
    } else {
        let part = after.subrange(sp + 1, after.len() as int);
        let model = trim(part.subrange(0, first_stop(part, Stop::NotModel { at })));
        if model.len() == 0 {
            None
        } else {
            Some(model)
        }
    }
}

/// A family named by `kw` and followed by a model: `label` and the model.
pub open spec fn model_rule(
    full: Seq<char>,
    upper: Seq<char>,
    kw: Seq<char>,
    label: Seq<char>,
    at: bool,
) -> Option<Seq<char>> {
    match keyword_pos(full, upper, kw) {
        Some(p) => match model_after(full, p, at) {
            Some(m) => Some(label + m),
            None => None,
        },
        None => None,
    }
}

/// "Ultra" counts only after "Core".
pub open spec fn ultra_rule(full: Seq<char>, upper: Seq<char>) -> Option<Seq<char>> {
    match keyword_pos(full, upper, "ULTRA"@) {
        Some(p) => if find_from(upper.subrange(0, p), "CORE"@, 0) is Some {
            match model_after(full, p, true) {
                Some(m) => Some("Ultra "@ + m),
                None => None,
            }
        } else {
            None
        },
        None => None,
    }
}

/// EPYC: the number that starts at the first digit after the first space.
pub open spec fn epyc_rule(full: Seq<char>, upper: Seq<char>) -> Option<Seq<char>> {
    match keyword_pos(full, upper, "EPYC"@) {
        Some(p) => {
            let after = full.subrange(p, full.len() as int);
            let sp = first_stop(after, Stop::Space);
            if sp >= after.len() {
                None
            } else {
                let rest = after.subrange(sp, after.len() as int);
                let ns = first_stop(rest, Stop::Digit);
                if ns >= rest.len() {
                    None
                } else {
                    let num = rest.subrange(ns, rest.len() as int);
                    let end = first_stop(num, Stop::NotNumber { dash: true });
                    Some("EPYC "@ + trim(num.subrange(0, end)))
                }
            }
        },
        None => None,
    }
}

/// The first position at or after `i` of an `I` followed by a digit.
pub open spec fn scan_i_digit(s: Seq<char>, i: int) -> int
    decreases s.len() - i,
{
    if i < 0 || i >= s.len() {
        s.len() as int
    } else if s[i] == 'I' && i + 1 < s.len() && is_digit(s[i + 1]) {
        i
    } else {
        scan_i_digit(s, i + 1)
    }
}

/// Core: a series such as "i7-" in upper case, then its number.
pub open spec fn core_rule(full: Seq<char>, upper: Seq<char>) -> Option<Seq<char>> {
    match keyword_pos(full, upper, "CORE"@) {
        Some(p) => {
            let au = upper.subrange(p, upper.len() as int);
            let i = scan_i_digit(au, 0);
            if i >= au.len() || p + i > full.len() {
                None
            } else {
                let part = full.subrange(p + i, full.len() as int);
                let d = first_stop(part, Stop::Dash);
                if d >= part.len() || i + d + 1 > au.len() {
                    None
                } else {
                    let num = part.subrange(d + 1, part.len() as int);
                    let end = first_stop(num, Stop::NotNumber { dash: true });
                    Some(au.subrange(i, i + d + 1) + trim(num.subrange(0, end)))
                }
            }
        },
        None => None,
    }
}

/// Ryzen: the digits after the first space (two characters where no
/// character ends them).
pub open spec fn ryzen_rule(full: Seq<char>, upper: Seq<char>) -> Option<Seq<char>> {
    match keyword_pos(full, upper, "RYZEN"@) {
        Some(p) => {
            let after = full.subrange(p, full.len() as int);
            let sp = first_stop(after, Stop::Space);
            if sp >= after.len() {
                None
            } else {
                let num = after.subrange(sp + 1, after.len() as int);
                let e = first_stop(num, Stop::NotNumber { dash: false });
                let end = if e < num.len() {
                    e
                } else if num.len() < 2 {
                    num.len() as int
                } else {
                    2
                };
                let r = trim(num.subrange(0, end));
                if r.len() == 0 {
                    None
                } else {
                    Some("AMD Ryzen "@ + r)
                }
            }
        },
        None => None,
    }
}

/// The whitespace-separated words of `s` from position `i` on.
pub open spec fn words_from(s: Seq<char>, i: int) -> Seq<Seq<char>>
    decreases s.len() - i,
{
    if i < 0 || i >= s.len() {
        Seq::empty()
    } else {
        let j = scan(s, Stop::NotWhite, i);
        let k = scan(s, Stop::White, j);
        if j >= s.len() || k <= i || k > s.len() {
            Seq::empty()
        } else {
            seq![s.subrange(j, k)] + words_from(s, k)
        }
    }
}

pub open spec fn words(s: Seq<char>) -> Seq<Seq<char>> {
    words_from(s, 0)
}

/// A word holds a `-` and a digit.
pub open spec fn dash_and_digit(w: Seq<char>) -> bool {
    first_stop(w, Stop::Dash) < w.len() && first_stop(w, Stop::Digit) < w.len()
}

/// The first word at or after `i` that holds a `-` and a digit.
pub open spec fn scan_words(ws: Seq<Seq<char>>, i: int) -> int
    decreases ws.len() - i,
{
    if i < 0 || i >= ws.len() {
        ws.len() as int
    } else if dash_and_digit(ws[i]) {
        i
    } else {
        scan_words(ws, i + 1)
    }
}

/// The words joined by single spaces.
pub open spec fn join_words(ws: Seq<Seq<char>>) -> Seq<char>
    decreases ws.len(),
{
    if ws.len() == 0 {
        Seq::empty()
    } else if ws.len() == 1 {
        ws[0]
    } else {
        join_words(ws.drop_last()) + " "@ + ws.last()
    }
}

/// Where no family matches: the first word with a `-` and a digit, with the
/// word before it; else the first three words.
pub open spec fn fallback_name(full: Seq<char>) -> Seq<char> {
    let ws = words(full);
    let w = scan_words(ws, 0);
    if w < ws.len() {
        if w > 0 {
            ws[w - 1] + " "@ + ws[w]
        } else {
            ws[w]
        }
    } else {
        join_words(ws.take(if ws.len() < 3 { ws.len() as int } else { 3 }))
    }
}

/// The short display name of a processor, from its full brand string and
/// that string in upper case. Families are tried in a fixed order:
/// Threadripper, EPYC, Core Ultra, Core iN, Xeon, Atom, Ryzen, Pentium,
/// Celeron, Athlon; then the fallback.
pub open spec fn short_name(full: Seq<char>, upper: Seq<char>) -> Seq<char> {
    if let Some(r) = model_rule(full, upper, "THREADRIPPER"@, "Threadripper "@, false) {
        r
    } else if let Some(r) = epyc_rule(full, upper) {
        r
    } else if let Some(r) = ultra_rule(full, upper) {
        r
    } else if let Some(r) = core_rule(full, upper) {
        r
    } else if let Some(r) = model_rule(full, upper, "XEON"@, "Xeon "@, true) {
        r
    } else if let Some(r) = model_rule(full, upper, "ATOM"@, "Atom "@, true) {
        r
    } else if let Some(r) = ryzen_rule(full, upper) {
        r
    } else if let Some(r) = model_rule(full, upper, "PENTIUM"@, "Pentium "@, true) {
        r
    } else if let Some(r) = model_rule(full, upper, "CELERON"@, "Celeron "@, true) {
        r
    } else if let Some(r) = model_rule(full, upper, "ATHLON"@, "Athlon "@, true) {
        r
    } else {
        fallback_name(full)
    }
}

fn keyword_pos_exec(full: &str, n: usize, upper: &str, kw: &str) -> (r: Option<usize>)
    requires
        n == full@.len(),
    ensures
        r is None <==> keyword_pos(full@, upper@, kw@) is None,
        r matches Some(p) ==> keyword_pos(full@, upper@, kw@) == Some(p as int),
        r matches Some(p) ==> p <= n && p + kw@.len() <= upper@.len(),
{
    proof {
        lemma_find_from_bounds(upper@, kw@, 0);
    }
    match find_exec(upper, kw) {
        Some(p) => if p <= n {
            Some(p)
        } else {
            None
        },
        None => None,
    }
}

fn model_after_exec(full: &str, n: usize, p: usize, at: bool) -> (r: Option<String>)
    requires
        n == full@.len(),
        p <= n,
    ensures
        r == None::<String> <==> model_after(full@, p as int, at) is None,
        r matches Some(m) ==> model_after(full@, p as int, at) == Some(m@),
{
    let after = full.substring_char(p, n);
    let an = n - p;
    let sp = scan_exec(after, an, Stop::Space, 0);
    if sp >= an {
        return None;
    }
    let part = after.substring_char(sp + 1, an);
    let pn = an - sp - 1;
    let e = scan_exec(part, pn, Stop::NotModel { at }, 0);
    let model = trimmed_part(part, 0, e);
    if model.as_str().unicode_len() == 0 {
        None
    } else {
        Some(model)
    }
}

fn model_rule_exec(full: &str, n: usize, upper: &str, kw: &str, label: &str, at: bool) -> (r: Option<String>)
    requires
        n == full@.len(),
    ensures
        r == None::<String> <==> model_rule(full@, upper@, kw@, label@, at) is None,
        r matches Some(m) ==> model_rule(full@, upper@, kw@, label@, at) == Some(m@),
{
    match keyword_pos_exec(full, n, upper, kw) {
        Some(p) => match model_after_exec(full, n, p, at) {
            Some(m) => Some(joined(label, m.as_str())),
            None => None,
        },
        None => None,
    }
}

fn ultra_rule_exec(full: &str, n: usize, upper: &str) -> (r: Option<String>)
    requires
        n == full@.len(),
    ensures
        r == None::<String> <==> ultra_rule(full@, upper@) is None,
        r matches Some(m) ==> ultra_rule(full@, upper@) == Some(m@),
{
    match keyword_pos_exec(full, n, upper, "ULTRA") {
        Some(p) => {
            let before = upper.substring_char(0, p);
            if find_exec(before, "CORE").is_some() {
                match model_after_exec(full, n, p, true) {
                    Some(m) => Some(joined("Ultra ", m.as_str())),
                    None => None,
                }
            } else {
                None
            }
        },
        None => None,
    }
}

fn epyc_rule_exec(full: &str, n: usize, upper: &str) -> (r: Option<String>)
    requires
        n == full@.len(),
    ensures
        r == None::<String> <==> epyc_rule(full@, upper@) is None,
        r matches Some(m) ==> epyc_rule(full@, upper@) == Some(m@),
{
    match keyword_pos_exec(full, n, upper, "EPYC") {
        Some(p) => {
            let after = full.substring_char(p, n);
            let an = n - p;
            let sp = scan_exec(after, an, Stop::Space, 0);
            if sp >= an {
                return None;
            }
            let rest = after.substring_char(sp, an);
            let rn = an - sp;
            let ns = scan_exec(rest, rn, Stop::Digit, 0);
            if ns >= rn {
                return None;
            }
            let num = rest.substring_char(ns, rn);
            let end = scan_exec(num, rn - ns, Stop::NotNumber { dash: true }, 0);
            let t = trimmed_part(num, 0, end);
            Some(joined("EPYC ", t.as_str()))
        },
        None => None,
    }
}

fn scan_i_digit_exec(s: &str, n: usize) -> (r: usize)
    requires
        n == s@.len(),
    ensures
        r == scan_i_digit(s@, 0),
        r <= n,
        r < n ==> r + 1 < n,
{
    let mut i: usize = 0;
    while i < n
        invariant
            n == s@.len(),
            i <= n,
            scan_i_digit(s@, 0) == scan_i_digit(s@, i as int),
        decreases n - i,
    {
        if s.get_char(i) == 'I' && i + 1 < n {
            let c = s.get_char(i + 1);
            if '0' <= c && c <= '9' {
                return i;
            }
        }
        i = i + 1;
    }
    i
}

fn core_rule_exec(full: &str, n: usize, upper: &str) -> (r: Option<String>)
    requires
        n == full@.len(),
    ensures
        r == None::<String> <==> core_rule(full@, upper@) is None,
        r matches Some(m) ==> core_rule(full@, upper@) == Some(m@),
{
    match keyword_pos_exec(full, n, upper, "CORE") {
        Some(p) => {
            let un = upper.unicode_len();
            let au = upper.substring_char(p, un);
            let aun = un - p;
            let i = scan_i_digit_exec(au, aun);
            if i >= aun || i > n - p {
                return None;
            }
            let part = full.substring_char(p + i, n);
            let pn = n - p - i;
            let d = scan_exec(part, pn, Stop::Dash, 0);
            if d >= pn || d + 1 > aun - i {
                return None;
            }
            let series = au.substring_char(i, i + d + 1);
            let num = part.substring_char(d + 1, pn);
            let end = scan_exec(num, pn - d - 1, Stop::NotNumber { dash: true }, 0);
            let t = trimmed_part(num, 0, end);
            Some(joined(series, t.as_str()))
        },
        None => None,
    }
}

fn ryzen_rule_exec(full: &str, n: usize, upper: &str) -> (r: Option<String>)
    requires
        n == full@.len(),
    ensures
        r == None::<String> <==> ryzen_rule(full@, upper@) is None,
        r matches Some(m) ==> ryzen_rule(full@, upper@) == Some(m@),
{
    match keyword_pos_exec(full, n, upper, "RYZEN") {
        Some(p) => {
            let after = full.substring_char(p, n);
            let an = n - p;
            let sp = scan_exec(after, an, Stop::Space, 0);
            if sp >= an {
                return None;
            }
            let num = after.substring_char(sp + 1, an);
            let nn = an - sp - 1;
            let e = scan_exec(num, nn, Stop::NotNumber { dash: false }, 0);
            let end = if e < nn {
                e
            } else if nn < 2 {
                nn
            } else {
                2
            };
            let t = trimmed_part(num, 0, end);
            if t.as_str().unicode_len() == 0 {
                None
            } else {
                Some(joined("AMD Ryzen ", t.as_str()))
            }
        },
        None => None,
    }
}

proof fn lemma_white_scans(s: Seq<char>, i: int)
    requires
        0 <= i < s.len(),
        scan(s, Stop::NotWhite, i) < s.len(),
    ensures
        i <= scan(s, Stop::NotWhite, i) < scan(s, Stop::White, scan(s, Stop::NotWhite, i)) <= s.len(),
{
    let j = scan(s, Stop::NotWhite, i);
    lemma_scan_bounds(s, Stop::NotWhite, i);
    assert(!is_white(s[j])) by {
        lemma_scan_stops(s, Stop::NotWhite, i);
    }
    lemma_scan_bounds(s, Stop::White, j + 1);
}

proof fn lemma_scan_stops(s: Seq<char>, k: Stop, i: int)
    requires
        0 <= i <= s.len(),
        scan(s, k, i) < s.len(),
    ensures
        stops(k, s[scan(s, k, i)]),
    decreases s.len() - i,
{
    if i < s.len() && !stops(k, s[i]) {
        lemma_scan_stops(s, k, i + 1);
    }
}

/// The whitespace-separated words of a text, in order.
pub fn split_words(s: &str) -> (r: Vec<String>)
    ensures
        r@.len() == words(s@).len(),
        forall|m: int| 0 <= m < r@.len() ==> (#[trigger] r@[m])@ == words(s@)[m],
{
    let n = s.unicode_len();
    let mut r: Vec<String> = Vec::new();
    let ghost mut acc: Seq<Seq<char>> = Seq::empty();
    let mut i: usize = 0;
    while i < n
        invariant
            n == s@.len(),
            i <= n,
            r@.len() == acc.len(),
            forall|m: int| 0 <= m < r@.len() ==> (#[trigger] r@[m])@ == acc[m],
            words(s@) == acc + words_from(s@, i as int),
        decreases n - i,
    {
        let j = scan_exec(s, n, Stop::NotWhite, i);
        if j >= n {
            proof {
                assert(words_from(s@, i as int) =~= Seq::<Seq<char>>::empty());
                assert(acc + words_from(s@, i as int) =~= acc);
                assert(words_from(s@, n as int) =~= Seq::<Seq<char>>::empty());
                assert(acc + words_from(s@, n as int) =~= acc);
            }
            i = n;
            continue;
        }
        let k = scan_exec(s, n, Stop::White, j);
        proof {
            lemma_white_scans(s@, i as int);
        }
        let word = String::from_str(s.substring_char(j, k));
        proof {
            assert(words_from(s@, i as int) == seq![s@.subrange(j as int, k as int)] + words_from(s@, k as int));
            assert(acc + words_from(s@, i as int) =~= acc.push(s@.subrange(j as int, k as int)) + words_from(s@, k as int));
            acc = acc.push(s@.subrange(j as int, k as int));
        }
        r.push(word);
        i = k;
    }
    proof {
        if i >= n {
            assert(words_from(s@, i as int) =~= Seq::<Seq<char>>::empty());
            assert(acc + words_from(s@, i as int) =~= acc);
        }
    }
    r
}

fn dash_and_digit_exec(w: &str) -> (r: bool)
    ensures
        r == dash_and_digit(w@),
{
    let n = w.unicode_len();
    scan_exec(w, n, Stop::Dash, 0) < n && scan_exec(w, n, Stop::Digit, 0) < n
}

fn fallback_exec(full: &str) -> (r: String)
    ensures
        r@ == fallback_name(full@),
{
    let ws = split_words(full);
    let ghost wv = words(full@);
    let len = ws.len();
    let mut w: usize = 0;
    while w < len && !dash_and_digit_exec(ws[w].as_str())
        invariant
            len == ws@.len(),
            len == wv.len(),
            w <= len,
            forall|m: int| 0 <= m < ws@.len() ==> (#[trigger] ws@[m])@ == wv[m],
            scan_words(wv, 0) == scan_words(wv, w as int),
        decreases len - w,
    {
        w = w + 1;
    }
    if w < len {
        if w > 0 {
            let left = joined(ws[w - 1].as_str(), " ");
            joined(left.as_str(), ws[w].as_str())
        } else {
            ws[w].clone()
        }
    } else {
        let t: usize = if len < 3 {
            len
        } else {
            3
        };
        let mut acc = String::new();
        let mut m: usize = 0;
        while m < t
            invariant
                t <= len,
                len == wv.len(),
                len == ws@.len(),
                m <= t,
                forall|q: int| 0 <= q < ws@.len() ==> (#[trigger] ws@[q])@ == wv[q],
                acc@ == join_words(wv.take(m as int)),
            decreases t - m,
        {
            proof {
                assert(wv.take(m + 1).drop_last() =~= wv.take(m as int));
                assert(wv.take(m + 1).last() == wv[m as int]);
                if m == 0 {
                    assert(wv.take(0) =~= Seq::<Seq<char>>::empty());
                }
            }
            if m == 0 {
                acc = ws[0].clone();
            } else {
                let spaced = joined(acc.as_str(), " ");
                acc = joined(spaced.as_str(), ws[m].as_str());
            }
            m = m + 1;
        }
        acc
    }
}

/// The short display name of a processor, given its brand string and that
/// string in upper case.
pub fn shorten_cpu_name_with(full_name: &str, upper_name: &str) -> (r: String)
    ensures
        r@ == short_name(full_name@, upper_name@),
{
    let n = full_name.unicode_len();
    if let Some(r) = model_rule_exec(full_name, n, upper_name, "THREADRIPPER", "Threadripper ", false) {
        return r;
    }
    if let Some(r) = epyc_rule_exec(full_name, n, upper_name) {
        return r;
    }
    if let Some(r) = ultra_rule_exec(full_name, n, upper_name) {
        return r;
    }
    if let Some(r) = core_rule_exec(full_name, n, upper_name) {
        return r;
    }
    if let Some(r) = model_rule_exec(full_name, n, upper_name, "XEON", "Xeon ", true) {
        return r;
    }
    if let Some(r) = model_rule_exec(full_name, n, upper_name, "ATOM", "Atom ", true) {
        return r;
    }
    if let Some(r) = ryzen_rule_exec(full_name, n, upper_name) {
        return r;
    }
    if let Some(r) = model_rule_exec(full_name, n, upper_name, "PENTIUM", "Pentium ", true) {
        return r;
    }
    if let Some(r) = model_rule_exec(full_name, n, upper_name, "CELERON", "Celeron ", true) {
        return r;
    }
    if let Some(r) = model_rule_exec(full_name, n, upper_name, "ATHLON", "Athlon ", true) {
        return r;
    }
    fallback_exec(full_name)
}

/// The short display name of a processor brand string ("AMD Ryzen 9",
/// "i7-12700", "Xeon Gold 6230"), as the dashboard shows it.
pub fn shorten_cpu_name(full_name: &str) -> (r: String)
    ensures
        r@ == short_name(full_name@, upper_of(full_name@)),
{
    let upper = uppercase(full_name);
    shorten_cpu_name_with(full_name, upper.as_str())
}

} // verus!
