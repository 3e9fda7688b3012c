//! The line scanner and the line shapes of a chart document: headers, `key: value` pairs and
//! the version line.
use vstd::prelude::*;
use crate::number::{all_digits, int_of_chars, int_text_value};
use crate::text::{
    chars_of, is_blank, is_space, is_space_char, split, split_chars, string_of, trim, trim_bounds,
    slice_of, views,
};

verus! {

/// The lines that a document's consumers see: its `\n`-separated lines that are not blank,
/// trimmed.
pub open spec fn kept_lines(ls: Seq<Seq<char>>) -> Seq<Seq<char>>
    decreases ls.len(),
{
    if ls.len() == 0 {
        Seq::empty()
    } else if is_blank(ls.last()) {
        kept_lines(ls.drop_last())
    } else {
        kept_lines(ls.drop_last()).push(trim(ls.last()))
    }
}

pub open spec fn content_lines(text: Seq<char>) -> Seq<Seq<char>> {
    kept_lines(split(text, '\n'))
}

/// What the scanner has: its lines, how many it has handed out, and the one it holds.
pub struct Scan {
    pub lines: Seq<Seq<char>>,
    pub next: nat,
    pub current: Option<nat>,
}

/// A forward-only cursor over the content lines of a document, with one line of lookahead.
pub struct ParseState {
    lines: Vec<Vec<char>>,
    next: usize,
    current: Option<usize>,
}

impl View for ParseState {
    type V = Scan;

    closed spec fn view(&self) -> Scan {
        Scan {
            lines: views(self.lines@),
            next: self.next as nat,
            current: match self.current {
                Some(i) => Some(i as nat),
                None => None,
            },
        }
    }
}

impl ParseState {
    /// The cursor is within its lines, and the line it holds is the last one handed out.
    pub open spec fn wf(&self) -> bool {
        &&& self@.next <= self@.lines.len()
        &&& self@.current matches Some(i) ==> i + 1 == self@.next
    }

    /// A cursor before the first content line of `input`.
    pub fn new(input: &str) -> (r: ParseState)
        ensures
            r.wf(),
            r@.lines == content_lines(input@),
            r@.next == 0,
            r@.current is None,
    {
        let text = chars_of(input);
        let pieces = split_chars(text.as_slice(), '\n');
        let ghost pv = views(pieces@);
        let mut lines: Vec<Vec<char>> = Vec::new();
        let mut i: usize = 0;
        assert(pv.subrange(0, 0) =~= Seq::<Seq<char>>::empty());
        assert(views(lines@) =~= Seq::<Seq<char>>::empty());
        while i < pieces.len()
            invariant
                i <= pieces@.len(),
                pv == views(pieces@),
                views(lines@) == kept_lines(pv.subrange(0, i as int)),
            decreases pieces@.len() - i,
        {
            let ghost sub = pv.subrange(0, i + 1);
            assert(sub.drop_last() =~= pv.subrange(0, i as int));
            assert(sub.last() == pieces@[i as int]@);
            let (a, b) = trim_bounds(pieces[i].as_slice());
            if a < b {
                let line = slice_of(pieces[i].as_slice(), a, b);
                let ghost before = views(lines@);
                lines.push(line);
                assert(views(lines@) =~= before.push(line@));
            }
            i += 1;
        }
        assert(pv.subrange(0, i as int) =~= pv);
        ParseState { lines, next: 0, current: None }
    }

    /// The `i`-th content line.
    pub fn line(&self, i: usize) -> (r: &Vec<char>)
        requires
            i < self@.lines.len(),
        ensures
            r@ == self@.lines[i as int],
    {
        &self.lines[i]
    }

    /// Hands out the next line and holds it; at the end, holds nothing.
    pub fn advance(&mut self) -> (r: Option<usize>)
        requires
            old(self).wf(),
        ensures
            final(self).wf(),
            final(self)@.lines == old(self)@.lines,
            old(self)@.next < old(self)@.lines.len() ==> r is Some && r->0 == old(self)@.next
                && final(self)@.next == old(self)@.next + 1,
            old(self)@.next >= old(self)@.lines.len() ==> r is None && final(self)@.next
                == old(self)@.next,
            final(self)@.current == (match r {
                Some(i) => Some(i as nat),
                None => None,
            }),
    {
        if self.next < self.lines.len() {
            let i = self.next;
            self.next = i + 1;
            self.current = Some(i);
            Some(i)
        } else {
            self.current = None;
            None
        }
    }

    /// The line held, or else the next one, which it then holds.
    pub fn current(&mut self) -> (r: Option<usize>)
        requires
            old(self).wf(),
        ensures
            final(self).wf(),
            final(self)@.lines == old(self)@.lines,
            old(self)@.current is Some ==> r is Some && r->0 == old(self)@.current->0
                && final(self)@ == old(self)@,
            old(self)@.current is None && old(self)@.next < old(self)@.lines.len() ==> r is Some
                && r->0 == old(self)@.next && final(self)@.next == old(self)@.next + 1 && final(self)@.current == Some(
                old(self)@.next,
            ),
            old(self)@.current is None && old(self)@.next >= old(self)@.lines.len() ==> r is None
                && final(self)@ == old(self)@,
    {
        match self.current {
            Some(i) => Some(i),
            None => self.advance(),
        }
    }

    /// Moves to the next line and returns it; at the end, returns nothing.
    pub fn read_next_line(&mut self) -> (r: Option<String>)
        requires
            old(self).wf(),
        ensures
            final(self).wf(),
            final(self)@.lines == old(self)@.lines,
            old(self)@.next < old(self)@.lines.len() ==> (r matches Some(l) && l@
                == old(self)@.lines[old(self)@.next as int]),
            old(self)@.next < old(self)@.lines.len() ==> final(self)@.next == old(self)@.next + 1
                && final(self)@.current == Some(old(self)@.next),
            old(self)@.next >= old(self)@.lines.len() ==> r is None && final(self)@.current is None
                && final(self)@.next == old(self)@.next,
    {
        match self.advance() {
            Some(i) => Some(string_of(self.lines[i].as_slice())),
            None => None,
        }
    }

    /// The line held, or else the next line, which it then holds.
    pub fn get_current_line(&mut self) -> (r: Option<String>)
        requires
            old(self).wf(),
        ensures
            final(self).wf(),
            final(self)@.lines == old(self)@.lines,
            old(self)@.current matches Some(i) ==> (r matches Some(l) && l@
                == old(self)@.lines[i as int]),
            old(self)@.current is Some ==> final(self)@ == old(self)@,
            old(self)@.current is None && old(self)@.next < old(self)@.lines.len() ==> (r matches Some(
                l,
            ) && l@ == old(self)@.lines[old(self)@.next as int]),
            old(self)@.current is None && old(self)@.next < old(self)@.lines.len() ==> final(self)@.next
                == old(self)@.next + 1 && final(self)@.current == Some(old(self)@.next),
            old(self)@.current is None && old(self)@.next >= old(self)@.lines.len() ==> r is None
                && final(self)@ == old(self)@,
    {
        match self.current() {
            Some(i) => Some(string_of(self.lines[i].as_slice())),
            None => None,
        }
    }
}

/// The first index at or after `i` that holds white space (or the length).
pub open spec fn first_space_from(s: Seq<char>, i: int) -> int
    decreases s.len() - i,
{
    if i < 0 || i >= s.len() {
        s.len() as int
    } else if is_space(s[i]) {
        i
    } else {
        first_space_from(s, i + 1)
    }
}

/// The first index at or after `i` that holds no white space (or the length).
pub open spec fn first_nonspace_from(s: Seq<char>, i: int) -> int
    decreases s.len() - i,
{
    if i < 0 || i >= s.len() {
        s.len() as int
    } else if !is_space(s[i]) {
        i
    } else {
        first_nonspace_from(s, i + 1)
    }
}

/// The largest index in `1..r` that holds a colon, or 0 when there is none.
pub open spec fn last_colon_below(s: Seq<char>, r: int) -> int
    decreases r,
{
    if r <= 1 || r > s.len() {
        0
    } else if s[r - 1] == ':' {
        r - 1
    } else {
        last_colon_below(s, r - 1)
    }
}

/// The value of a pair whose value is blank.
pub open spec fn none_text() -> Seq<char> {
    seq!['n', 'o', 'n', 'e']
}

/// The `(key, value)` of a line `key: value`: the key is the longest run of non-space
/// characters that white space and then a colon follow; the value is what follows the colon
/// from its first non-space character on, or `none` when nothing does.
pub open spec fn kv_split(s: Seq<char>) -> Option<(Seq<char>, Seq<char>)> {
    let r = first_space_from(s, 0);
    let j = first_nonspace_from(s, r);
    let k = if j < s.len() && s[j] == ':' {
        r
    } else {
        last_colon_below(s, r)
    };
    let cp = if j < s.len() && s[j] == ':' {
        j
    } else {
        k
    };
    let v0 = first_nonspace_from(s, cp + 1);
    if k >= 1 {
        Some(
            (
                s.subrange(0, k),
                if v0 < s.len() {
                    s.subrange(v0, s.len() as int)
                } else {
                    none_text()
                },
            ),
        )
    } else {
        None
    }
}

/// The first index at or after `i` that holds a square bracket (or the length).
pub open spec fn first_bracket_from(s: Seq<char>, i: int) -> int
    decreases s.len() - i,
{
    if i < 0 || i >= s.len() {
        s.len() as int
    } else if s[i] == '[' || s[i] == ']' {
        i
    } else {
        first_bracket_from(s, i + 1)
    }
}

/// The name of a section header `[name]`, which holds no brackets; only white space may follow.
pub open spec fn header_name(s: Seq<char>) -> Option<Seq<char>> {
    let m = first_bracket_from(s, 1);
    if s.len() > 0 && s[0] == '[' && m < s.len() && s[m] == ']' && is_blank(
        s.subrange(m + 1, s.len() as int),
    ) {
        Some(s.subrange(1, m))
    } else {
        None
    }
}

pub open spec fn version_prefix() -> Seq<char> {
    seq![
        'o', 's', 'u', ' ', 'f', 'i', 'l', 'e', ' ', 'f', 'o', 'r', 'm', 'a', 't', ' ', 'v',
    ]
}

/// The format version of a first line `osu file format v<digits>`.
pub open spec fn version_value(s: Seq<char>) -> Option<i32> {
    let rest = s.subrange(17, s.len() as int);
    if s.len() >= 17 && s.subrange(0, 17) == version_prefix() && all_digits(rest) {
        int_text_value(rest)
    } else {
        None
    }
}

fn first_space_at(s: &[char], i: usize) -> (r: usize)
    requires
        i <= s@.len(),
    ensures
        r == first_space_from(s@, i as int),
        i <= r <= s@.len(),
{
    let mut k = i;
    while k < s.len() && !is_space_char(s[k])
        invariant
            i <= k <= s@.len(),
            first_space_from(s@, i as int) == first_space_from(s@, k as int),
        decreases s@.len() - k,
    {
        k += 1;
    }
    k
}

fn first_nonspace_at(s: &[char], i: usize) -> (r: usize)
    requires
        i <= s@.len(),
    ensures
        r == first_nonspace_from(s@, i as int),
        i <= r <= s@.len(),
{
    let mut k = i;
    while k < s.len() && is_space_char(s[k])
        invariant
            i <= k <= s@.len(),
            first_nonspace_from(s@, i as int) == first_nonspace_from(s@, k as int),
        decreases s@.len() - k,
    {
        k += 1;
    }
    k
}

fn last_colon_under(s: &[char], r: usize) -> (c: usize)
    requires
        r <= s@.len(),
    ensures
        c == last_colon_below(s@, r as int),
        c < r || c == 0,
{
    let mut k = r;
    while k > 1 && s[k - 1] != ':'
        invariant
            k <= r <= s@.len(),
            last_colon_below(s@, r as int) == last_colon_below(s@, k as int),
        decreases k,
    {
        k -= 1;
    }
    if k > 1 {
        k - 1
    } else {
        0
    }
}

/// Splits a line `key: value` into its key and value.
pub fn kv_split_chars(s: &[char]) -> (r: Option<(Vec<char>, Vec<char>)>)
    ensures
        match kv_split(s@) {
            Some((k, v)) => r matches Some((a, b)) && a@ == k && b@ == v,
            None => r is None,
        },
{
    let r = first_space_at(s, 0);
    let j = first_nonspace_at(s, r);
    let colon_follows = j < s.len() && s[j] == ':';
    let k = if colon_follows {
        r
    } else {
        last_colon_under(s, r)
    };
    let cp = if colon_follows {
        j
    } else {
        k
    };
    if k == 0 {
        return None;
    }
    let key = slice_of(s, 0, k);
    let v0 = first_nonspace_at(s, cp + 1);
    let value = if v0 < s.len() {
        slice_of(s, v0, s.len())
    } else {
        let none = vec!['n', 'o', 'n', 'e'];
        assert(none@ =~= none_text());
        none
    };
    Some((key, value))
}

/// Reads the next line as a `key: value` pair; a line of another shape is kept as the held
/// line and ends the pairs.
pub fn parse_kv_pair(state: &mut ParseState) -> (r: Option<(String, String)>)
    requires
        old(state).wf(),
    ensures
        final(state).wf(),
        final(state)@.lines == old(state)@.lines,
        old(state)@.next < old(state)@.lines.len() ==> final(state)@.next == old(state)@.next + 1
            && final(state)@.current == Some(old(state)@.next) && match kv_split(
            old(state)@.lines[old(state)@.next as int],
        ) {
            Some((k, v)) => r matches Some((a, b)) && a@ == k && b@ == v,
            None => r is None,
        },
        old(state)@.next >= old(state)@.lines.len() ==> r is None && final(state)@.current is None
            && final(state)@.next == old(state)@.next,
{
    match state.advance() {
        Some(i) => match kv_split_chars(state.line(i).as_slice()) {
            Some((k, v)) => Some((string_of(k.as_slice()), string_of(v.as_slice()))),
            None => None,
        },
        None => None,
    }
}

/// The name of a section header line.
pub fn header_of(s: &[char]) -> (r: Option<Vec<char>>)
    ensures
        match header_name(s@) {
            Some(n) => r matches Some(a) && a@ == n,
            None => r is None,
        },
{
    if s.len() == 0 || s[0] != '[' {
        return None;
    }
    let mut m: usize = 1;
    while m < s.len() && s[m] != '[' && s[m] != ']'
        invariant
            1 <= m <= s@.len(),
            first_bracket_from(s@, 1) == first_bracket_from(s@, m as int),
        decreases s@.len() - m,
    {
        m += 1;
    }
    if m >= s.len() || s[m] != ']' {
        return None;
    }
    let (a, b) = trim_bounds(slice_of(s, m + 1, s.len()).as_slice());
    if a < b {
        return None;
    }
    Some(slice_of(s, 1, m))
}

/// Whether a line is a section header.
pub fn is_header(s: &[char]) -> (r: bool)
    ensures
        r == header_name(s@) is Some,
{
    header_of(s).is_some()
}

/// The format version that a first line gives.
pub fn version_of(s: &[char]) -> (r: Option<i32>)
    ensures
        r == version_value(s@),
{
    let prefix = vec!['o', 's', 'u', ' ', 'f', 'i', 'l', 'e', ' ', 'f', 'o', 'r', 'm', 'a', 't', ' ', 'v'];
    assert(prefix@ =~= version_prefix());
    if s.len() < 17 {
        return None;
    }
    let mut i: usize = 0;
    while i < 17
        invariant
            i <= 17 <= s@.len(),
            prefix@ == version_prefix(),
            s@.subrange(0, i as int) == prefix@.subrange(0, i as int),
        decreases 17 - i,
    {
        if s[i] != prefix[i] {
            assert(s@.subrange(0, 17)[i as int] != version_prefix()[i as int]);
            return None;
        }
        i += 1;
        assert(s@.subrange(0, i as int) =~= prefix@.subrange(0, i as int));
    }
    assert(prefix@.subrange(0, 17) =~= prefix@);
    let rest = slice_of(s, 17, s.len());
    let mut k: usize = 0;
    while k < rest.len()
        invariant
            k <= rest@.len(),
            17 <= s@.len(),
            rest@ == s@.subrange(17, s@.len() as int),
            forall|q: int| 0 <= q < k ==> crate::number::is_digit(#[trigger] rest@[q]),
        decreases rest@.len() - k,
    {
        if !('0' <= rest[k] && rest[k] <= '9') {
            assert(!crate::number::is_digit(rest@[k as int]));
            assert(!all_digits(s@.subrange(17, s@.len() as int)));
            return None;
        }
        k += 1;
    }
    int_of_chars(rest.as_slice())
}

} // verus!
