//! The repository configuration: `[Section]` headers and `key=value` lines.
use vstd::prelude::*;
use vstd::utf8::{decode_utf8, valid_utf8};

use crate::text::{has_at, is_signed_numeral, signed_value, split_on, utf8};

verus! {

/// The section that holds the author identity.
pub const CONFIG_GENERAL_SECTION: &'static str = "General";

/// The key of the author's name.
pub const CONFIG_USERNAME_FIELD: &'static str = "Username";

/// The key of the author's email.
pub const CONFIG_EMAIL_FIELD: &'static str = "Email";

/// Configuration variables: section, name and value, in the order they
/// were set. A later setting of the same section and name wins.
pub struct Config {
    pub variables: Vec<(String, String, String)>,
}

/// The value that the last setting of `section` / `name` gave, if any.
pub open spec fn config_lookup(vars: Seq<(String, String, String)>, section: Seq<char>, name: Seq<char>) -> Option<Seq<char>>
    decreases vars.len(),
{
    if vars.len() == 0 {
        None
    } else if vars.last().0@ == section && vars.last().1@ == name {
        Some(vars.last().2@)
    } else {
        config_lookup(vars.drop_last(), section, name)
    }
}

/// ASCII whitespace.
pub open spec fn is_space(b: u8) -> bool {
    b == 32 || b == 9 || b == 10 || b == 11 || b == 12 || b == 13
}

/// Bytes without leading whitespace.
pub open spec fn trim_start(b: Seq<u8>) -> Seq<u8>
    decreases b.len(),
{
    if b.len() > 0 && is_space(b[0]) {
        trim_start(b.drop_first())
    } else {
        b
    }
}

/// Bytes without trailing whitespace.
pub open spec fn trim_end(b: Seq<u8>) -> Seq<u8>
    decreases b.len(),
{
    if b.len() > 0 && is_space(b.last()) {
        trim_end(b.drop_last())
    } else {
        b
    }
}

/// Bytes without surrounding whitespace.
pub open spec fn trim(b: Seq<u8>) -> Seq<u8> {
    trim_end(trim_start(b))
}

/// The settings that configuration lines make, each as section, name and
/// value bytes, starting in section `current`: a line `[S]` opens section
/// `S`; a line with `=` sets the name before the first `=` to what follows
/// it; other lines are ignored. Lines are trimmed first.
pub open spec fn config_settings(lines: Seq<Seq<u8>>, current: Seq<u8>) -> Seq<(Seq<u8>, Seq<u8>, Seq<u8>)>
    decreases lines.len(),
{
    if lines.len() == 0 {
        Seq::empty()
    } else {
        let l = trim(lines[0]);
        if l.len() >= 2 && l[0] == 91 && l.last() == 93 {
            config_settings(lines.drop_first(), l.subrange(1, l.len() - 1))
        } else {
            let eq = crate::text::find_from(l, 61, 0);
            if eq >= 0 {
                seq![(current, l.subrange(0, eq), l.subrange(eq + 1, l.len() as int))] + config_settings(lines.drop_first(), current)
            } else {
                config_settings(lines.drop_first(), current)
            }
        }
    }
}

/// The variables that match the settings, in order.
pub open spec fn vars_match(vars: Seq<(String, String, String)>, settings: Seq<(Seq<u8>, Seq<u8>, Seq<u8>)>) -> bool {
    vars.len() == settings.len() && forall|i: int|
        0 <= i < vars.len() ==> utf8((#[trigger] vars[i]).0@) == settings[i].0 && utf8(vars[i].1@) == settings[i].1 && utf8(
            vars[i].2@,
        ) == settings[i].2
}

fn trim_bounds(b: &[u8]) -> (r: (usize, usize))
    ensures
        r.0 <= r.1 <= b@.len(),
        b@.subrange(r.0 as int, r.1 as int) == trim(b@),
{
    let mut s: usize = 0;
    proof {
        assert(b@.subrange(0, b@.len() as int) =~= b@);
    }
    while s < b.len() && (b[s] == 32 || b[s] == 9 || b[s] == 10 || b[s] == 11 || b[s] == 12 || b[s] == 13)
        invariant
            s <= b@.len(),
            trim_start(b@) == trim_start(b@.subrange(s as int, b@.len() as int)),
        decreases b@.len() - s,
    {
        assert(b@.subrange(s as int, b@.len() as int).drop_first() =~= b@.subrange(s + 1, b@.len() as int));
        s = s + 1;
    }
    let ghost t = b@.subrange(s as int, b@.len() as int);
    assert(trim_start(t) == t);
    let mut e: usize = b.len();
    assert(t.subrange(0, t.len() as int) =~= t);
    while e > s && (b[e - 1] == 32 || b[e - 1] == 9 || b[e - 1] == 10 || b[e - 1] == 11 || b[e - 1] == 12 || b[e - 1] == 13)
        invariant
            s <= e <= b@.len(),
            t == b@.subrange(s as int, b@.len() as int),
            trim_end(t) == trim_end(b@.subrange(s as int, e as int)),
        decreases e - s,
    {
        assert(b@.subrange(s as int, e as int).drop_last() =~= b@.subrange(s as int, e - 1));
        e = e - 1;
    }
    (s, e)
}

impl Config {
    /// A configuration with no variables.
    pub fn new() -> (r: Self)
        ensures
            r.variables@.len() == 0,
    {
        Config { variables: Vec::new() }
    }

    /// Sets `name` in `category_name` to `value`.
    pub fn add(&mut self, category_name: &str, name: &str, value: &str)
        ensures
            final(self).variables@.len() == old(self).variables@.len() + 1,
            final(self).variables@.drop_last() == old(self).variables@,
            final(self).variables@.last().0@ == category_name@,
            final(self).variables@.last().1@ == name@,
            final(self).variables@.last().2@ == value@,
    {
        self.variables.push((category_name.to_owned(), name.to_owned(), value.to_owned()));
        assert(self.variables@.drop_last() =~= old(self).variables@);
    }

    /// The value of `name` in `category_name`, if it is set.
    pub fn get(&self, category_name: &str, name: &str) -> (r: Option<String>)
        ensures
            match r {
                Some(v) => config_lookup(self.variables@, category_name@, name@) == Some(v@),
                None => config_lookup(self.variables@, category_name@, name@) is None,
            },
    {
        let mut i: usize = self.variables.len();
        assert(self.variables@.subrange(0, i as int) =~= self.variables@);
        while i > 0
            invariant
                i <= self.variables@.len(),
                config_lookup(self.variables@, category_name@, name@) == config_lookup(
                    self.variables@.subrange(0, i as int),
                    category_name@,
                    name@,
                ),
            decreases i,
        {
            let v = &self.variables[i - 1];
            if crate::text::str_eq(v.0.as_str(), category_name) && crate::text::str_eq(v.1.as_str(), name) {
                return Some(v.2.clone());
            }
            assert(self.variables@.subrange(0, i as int).drop_last() =~= self.variables@.subrange(0, i - 1));
            i = i - 1;
        }
        None
    }

    /// The value of `name` in `category_name` read as an `i32`, if it is set
    /// and is a decimal numeral in range.
    pub fn get_int(&self, category_name: &str, name: &str) -> (r: Option<i32>)
        ensures
            match config_lookup(self.variables@, category_name@, name@) {
                Some(v) => if is_signed_numeral(utf8(v)) && i32::MIN <= signed_value(utf8(v)) <= i32::MAX {
                    r == Some(signed_value(utf8(v)) as i32)
                } else {
                    r is None
                },
                None => r is None,
            },
    {
        match self.get(category_name, name) {
            Some(v) => {
                match crate::text::parse_i64(v.as_str().as_bytes()) {
                    Some(n) => {
                        if n >= -2147483648 && n <= 2147483647 {
                            Some(n as i32)
                        } else {
                            None
                        }
                    },
                    None => None,
                }
            },
            None => None,
        }
    }
}

} // verus!

verus! {

/// The text of `b[i..j]`, where the cuts fall next to ASCII bytes.
fn text_piece(b: &[u8], i: usize, j: usize) -> (r: String)
    requires
        valid_utf8(b@),
        i <= j <= b@.len(),
        i == 0 || b@[i - 1] < 128,
        j == b@.len() || b@[j as int] < 128,
    ensures
        utf8(r@) == b@.subrange(i as int, j as int),
{
    proof {
        let t = b@.subrange(i as int, b@.len() as int);
        if i > 0 {
            crate::text::lemma_ascii_split(b@, i - 1);
        } else {
            assert(t =~= b@);
        }
        if j < b@.len() {
            assert(t[j - i] == b@[j as int]);
            crate::text::lemma_ascii_split(t, j - i);
            assert(t.subrange(0, j - i) =~= b@.subrange(i as int, j as int));
        } else {
            assert(t =~= b@.subrange(i as int, j as int));
        }
    }
    match crate::text::text_of(crate::text::slice_range(b, i, j)) {
        Some(s) => s,
        None => String::new(),
    }
}

impl Config {
    /// Reads configuration text: `[Section]` lines open a section, and
    /// `key=value` lines set a variable in the current one. Lines are trimmed
    /// of surrounding whitespace; other lines are ignored.
    #[verifier::rlimit(100)]
    pub fn parse(data: String) -> (r: Config)
        ensures
            vars_match(r.variables@, config_settings(split_on(utf8(data@), 10), Seq::empty())),
    {
        let bytes = data.as_str().as_bytes();
        let bounds = crate::text::field_bounds(bytes, 10u8);
        let ghost lines = split_on(utf8(data@), 10);
        proof {
            vstd::utf8::encode_utf8_valid_utf8(data@);
            crate::text::lemma_split_valid(utf8(data@), 10);
        }
        let mut config = Config::new();
        let mut current = String::new();
        let mut k: usize = 0;
        let ghost mut done: Seq<(Seq<u8>, Seq<u8>, Seq<u8>)> = Seq::empty();
        proof {
            assert(lines.subrange(0, lines.len() as int) =~= lines);
            assert(done + config_settings(lines, Seq::empty()) =~= config_settings(lines, Seq::empty()));
        }
        while k < bounds.len()
            invariant
                bytes@ == utf8(data@),
                lines == split_on(bytes@, 10),
                bounds@.len() == lines.len(),
                forall|j: int| 0 <= j < bounds@.len() ==> (#[trigger] bounds@[j]).0 <= bounds@[j].1 <= bytes@.len()
                    && bytes@.subrange(bounds@[j].0 as int, bounds@[j].1 as int) == lines[j],
                forall|j: int| 0 <= j < lines.len() ==> valid_utf8(#[trigger] lines[j]),
                k <= lines.len(),
                config_settings(lines, Seq::empty()) == done + config_settings(lines.subrange(k as int, lines.len() as int), utf8(current@)),
                vars_match(config.variables@, done),
            decreases lines.len() - k,
        {
            let (a, b) = bounds[k];
            let line = crate::text::copy_bytes(crate::text::slice_range(bytes, a, b));
            let ghost rest = lines.subrange(k as int, lines.len() as int);
            proof {
                assert(rest[0] == lines[k as int]);
                assert(rest.drop_first() =~= lines.subrange(k + 1, lines.len() as int));
            }
            let (s, e) = trim_bounds(line.as_slice());
            let ghost l = trim(line@);
            proof {
                if s > 0 {
                    assert(line@[s - 1] < 128) by {
                        lemma_trim_bounds_ascii(line@, s as int, e as int);
                    }
                }
                lemma_trim_bounds_ascii(line@, s as int, e as int);
            }
            if e - s >= 2 && line[s] == 91u8 && line[e - 1] == 93u8 {
                proof {
                    assert(l[0] == line@[s as int]);
                    assert(l.last() == line@[e - 1]);
                }
                current = text_piece(line.as_slice(), s + 1, e - 1);
                proof {
                    assert(l.subrange(1, l.len() - 1) =~= line@.subrange(s + 1, e - 1));
                }
            } else {
                proof {
                    if l.len() >= 2 {
                        assert(l[0] == line@[s as int]);
                        assert(l.last() == line@[e - 1]);
                    }
                }
                let tl = crate::text::slice_range(line.as_slice(), s, e);
                match crate::text::find_byte(tl, 61u8, 0) {
                    Some(eq) => {
                        let name = text_piece(line.as_slice(), s, s + eq);
                        let value = text_piece(line.as_slice(), s + eq + 1, e);
                        proof {
                            assert(l.subrange(0, eq as int) =~= line@.subrange(s as int, s + eq));
                            assert(l.subrange(eq + 1, l.len() as int) =~= line@.subrange(s + eq + 1, e as int));
                        }
                        config.add(current.as_str(), name.as_str(), value.as_str());
                        proof {
                            let nd = done.push((utf8(current@), l.subrange(0, eq as int), l.subrange(eq + 1, l.len() as int)));
                            assert forall|i: int| 0 <= i < nd.len() implies utf8((#[trigger] config.variables@[i]).0@) == nd[i].0 && utf8(config.variables@[i].1@) == nd[i].1 && utf8(config.variables@[i].2@) == nd[i].2 by {
                                if i < done.len() {
                                    assert(config.variables@[i] == config.variables@.drop_last()[i]);
                                }
                            }
                            assert(done + (seq![(utf8(current@), l.subrange(0, eq as int), l.subrange(eq + 1, l.len() as int))] + config_settings(rest.drop_first(), utf8(current@))) =~= nd + config_settings(rest.drop_first(), utf8(current@)));
                            done = nd;
                        }
                    },
                    None => {},
                }
            }
            k = k + 1;
        }
        proof {
            assert(lines.subrange(k as int, lines.len() as int) =~= Seq::<Seq<u8>>::empty());
            assert(done + Seq::<(Seq<u8>, Seq<u8>, Seq<u8>)>::empty() =~= done);
        }
        config
    }
}

proof fn lemma_trim_bounds_ascii(b: Seq<u8>, s: int, e: int)
    requires
        0 <= s <= e <= b.len(),
        b.subrange(s, e) == trim(b),
    ensures
        s > 0 ==> b[s - 1] < 128,
        e < b.len() ==> b[e] < 128,
{
    lemma_trim_shape(b);
    if s > 0 || e < b.len() {
        let (s2, e2) = choose|s2: int, e2: int| 0 <= s2 <= e2 <= b.len() && b.subrange(s2, e2) == trim(b)
            && (forall|i: int| 0 <= i < s2 ==> is_space(#[trigger] b[i]))
            && (forall|i: int| e2 <= i < b.len() ==> is_space(#[trigger] b[i]))
            && (e2 > s2 ==> !is_space(b[s2]) && !is_space(b[e2 - 1]))
            && (e2 == s2 ==> forall|i: int| 0 <= i < b.len() ==> is_space(#[trigger] b[i]));
        lemma_trim_positions(b, s, e, s2, e2);
    }
}

proof fn lemma_trim_positions(b: Seq<u8>, s: int, e: int, s2: int, e2: int)
    requires
        0 <= s <= e <= b.len(),
        0 <= s2 <= e2 <= b.len(),
        b.subrange(s, e) == b.subrange(s2, e2),
        forall|i: int| 0 <= i < s2 ==> is_space(#[trigger] b[i]),
        forall|i: int| e2 <= i < b.len() ==> is_space(#[trigger] b[i]),
        e2 > s2 ==> !is_space(b[s2]) && !is_space(b[e2 - 1]),
        e2 == s2 ==> forall|i: int| 0 <= i < b.len() ==> is_space(#[trigger] b[i]),
    ensures
        s > 0 ==> b[s - 1] < 128,
        e < b.len() ==> b[e] < 128,
{
    if e2 == s2 {
        if s > 0 {
            assert(is_space(b[s - 1]));
        }
        if e < b.len() {
            assert(is_space(b[e]));
        }
    } else {
        let n = e2 - s2;
        assert(b.subrange(s, e).len() == e - s);
        assert(b.subrange(s2, e2).len() == e2 - s2);
        assert(e - s == n);
        if s < s2 {
            assert(b.subrange(s, e)[0] == b[s]);
            assert(b.subrange(s2, e2)[0] == b[s2]);
            assert(is_space(b[s]));
        }
        if s > s2 {
            assert(b.subrange(s, e)[n - 1] == b[e - 1]);
            assert(b.subrange(s2, e2)[n - 1] == b[e2 - 1]);
            assert(is_space(b[e - 1]));
        }
        assert(s == s2);
        if s > 0 {
            assert(is_space(b[s - 1]));
        }
        if e < b.len() {
            assert(is_space(b[e]));
        }
    }
}

proof fn lemma_trim_shape(b: Seq<u8>)
    ensures
        exists|s2: int, e2: int| 0 <= s2 <= e2 <= b.len() && b.subrange(s2, e2) == trim(b)
            && (forall|i: int| 0 <= i < s2 ==> is_space(#[trigger] b[i]))
            && (forall|i: int| e2 <= i < b.len() ==> is_space(#[trigger] b[i]))
            && (e2 > s2 ==> !is_space(b[s2]) && !is_space(b[e2 - 1]))
            && (e2 == s2 ==> forall|i: int| 0 <= i < b.len() ==> is_space(#[trigger] b[i])),
{
    let s2 = lemma_trim_start_shape(b);
    let t = b.subrange(s2, b.len() as int);
    let e3 = lemma_trim_end_shape(t);
    let e2 = s2 + e3;
    assert(b.subrange(s2, e2) =~= t.subrange(0, e3));
    assert forall|i: int| e2 <= i < b.len() implies is_space(#[trigger] b[i]) by {
        assert(b[i] == t[i - s2]);
    }
    if e2 > s2 {
        assert(b[s2] == t[0]);
        assert(b[e2 - 1] == t[e3 - 1]);
    } else {
        assert forall|i: int| 0 <= i < b.len() implies is_space(#[trigger] b[i]) by {
            if i >= s2 {
                assert(b[i] == t[i - s2]);
            }
        }
    }
}

proof fn lemma_trim_start_shape(b: Seq<u8>) -> (s: int)
    ensures
        0 <= s <= b.len(),
        trim_start(b) == b.subrange(s, b.len() as int),
        forall|i: int| 0 <= i < s ==> is_space(#[trigger] b[i]),
        s < b.len() ==> !is_space(b[s]),
    decreases b.len(),
{
    if b.len() > 0 && is_space(b[0]) {
        let s1 = lemma_trim_start_shape(b.drop_first());
        assert(b.drop_first().subrange(s1, b.len() - 1) =~= b.subrange(s1 + 1, b.len() as int));
        assert forall|i: int| 0 <= i < s1 + 1 implies is_space(#[trigger] b[i]) by {
            if i > 0 {
                assert(b[i] == b.drop_first()[i - 1]);
            }
        }
        if s1 + 1 < b.len() {
            assert(b[s1 + 1] == b.drop_first()[s1]);
        }
        s1 + 1
    } else {
        assert(b.subrange(0, b.len() as int) =~= b);
        0
    }
}

proof fn lemma_trim_end_shape(b: Seq<u8>) -> (e: int)
    ensures
        0 <= e <= b.len(),
        trim_end(b) == b.subrange(0, e),
        forall|i: int| e <= i < b.len() ==> is_space(#[trigger] b[i]),
        e > 0 ==> !is_space(b[e - 1]),
    decreases b.len(),
{
    if b.len() > 0 && is_space(b.last()) {
        let e1 = lemma_trim_end_shape(b.drop_last());
        assert(b.drop_last().subrange(0, e1) =~= b.subrange(0, e1));
        assert forall|i: int| e1 <= i < b.len() implies is_space(#[trigger] b[i]) by {
            if i < b.len() - 1 {
                assert(b[i] == b.drop_last()[i]);
            }
        }
        if e1 > 0 {
            assert(b[e1 - 1] == b.drop_last()[e1 - 1]);
        }
        e1
    } else {
        assert(b.subrange(0, b.len() as int) =~= b);
        b.len() as int
    }
}

} // verus!
