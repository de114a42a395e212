//! Patterns written as text: whitespace-separated tokens, each two hex digits
//! (a known byte) or `?` / `??` (a wildcard).
use crate::error::Error;
use crate::pattern::PatternBytes;
use vstd::prelude::*;

verus! {

/// The characters that separate tokens: Unicode's white space.
pub open spec fn is_space(c: char) -> bool {
    let v = c as u32;
    (9 <= v <= 13) || v == 32 || v == 0x85 || v == 0xA0 || v == 0x1680 || (0x2000 <= v <= 0x200A)
        || v == 0x2028 || v == 0x2029 || v == 0x202F || v == 0x205F || v == 0x3000
}

/// The tokens of `s` from index `i` on, `cur` being the token begun before `i`.
pub open spec fn tokens_from(s: Seq<char>, i: int, cur: Seq<char>) -> Seq<Seq<char>>
    decreases s.len() - i,
{
    let closed = if cur.len() > 0 {
        seq![cur]
    } else {
        Seq::empty()
    };
    if i < 0 || i >= s.len() {
        closed
    } else if is_space(s[i]) {
        closed + tokens_from(s, i + 1, Seq::empty())
    } else {
        tokens_from(s, i + 1, cur.push(s[i]))
    }
}

/// The maximal runs of non-space characters of `s`, in order.
pub open spec fn tokens(s: Seq<char>) -> Seq<Seq<char>> {
    tokens_from(s, 0, Seq::empty())
}

/// The value of a hex digit, either case; `None` for another character.
pub open spec fn hex_value(c: char) -> Option<int> {
    let v = c as u32;
    if 48 <= v <= 57 {
        Some(v - 48)
    } else if 97 <= v <= 102 {
        Some(v - 87)
    } else if 65 <= v <= 70 {
        Some(v - 55)
    } else {
        None
    }
}

/// The token is `?` or `??`.
pub open spec fn is_wildcard_token(t: Seq<char>) -> bool {
    (t.len() == 1 || t.len() == 2) && forall|k: int| 0 <= k < t.len() ==> t[k] == '?'
}

/// The token is two hex digits.
pub open spec fn is_byte_token(t: Seq<char>) -> bool {
    t.len() == 2 && hex_value(t[0]) is Some && hex_value(t[1]) is Some
}

/// The token stands for a cell.
pub open spec fn valid_token(t: Seq<char>) -> bool {
    is_wildcard_token(t) || is_byte_token(t)
}

/// The cell a valid token stands for.
pub open spec fn token_cell(t: Seq<char>) -> Option<u8> {
    if is_byte_token(t) {
        Some((16 * hex_value(t[0])->0 + hex_value(t[1])->0) as u8)
    } else {
        None
    }
}

/// Every token of the text is valid.
pub open spec fn text_valid(s: Seq<char>) -> bool {
    forall|t: int| 0 <= t < tokens(s).len() ==> valid_token(#[trigger] tokens(s)[t])
}

/// The cells of a valid text.
pub open spec fn text_cells(s: Seq<char>) -> Seq<Option<u8>> {
    tokens(s).map_values(|t: Seq<char>| token_cell(t))
}

fn is_space_char(c: char) -> (r: bool)
    ensures
        r == is_space(c),
{
    let v = c as u32;
    (9 <= v && v <= 13) || v == 32 || v == 0x85 || v == 0xA0 || v == 0x1680 || (0x2000 <= v && v
        <= 0x200A) || v == 0x2028 || v == 0x2029 || v == 0x202F || v == 0x205F || v == 0x3000
}

fn hex_digit(c: char) -> (r: Option<u8>)
    ensures
        r is Some <==> hex_value(c) is Some,
        r matches Some(d) ==> d as int == hex_value(c)->0,
{
    let v = c as u32;
    if 48 <= v && v <= 57 {
        Some((v - 48) as u8)
    } else if 97 <= v && v <= 102 {
        Some((v - 87) as u8)
    } else if 65 <= v && v <= 70 {
        Some((v - 55) as u8)
    } else {
        None
    }
}

/// Reads one token: its cell, or `None` when the token is not valid.
fn parse_token(t: &Vec<char>) -> (r: Option<Option<u8>>)
    ensures
        r is Some <==> valid_token(t@),
        r matches Some(c) ==> c == token_cell(t@),
{
    if t.len() == 1 && t[0] == '?' {
        return Some(None);
    }
    if t.len() == 2 && t[0] == '?' && t[1] == '?' {
        return Some(None);
    }
    if t.len() != 2 {
        return None;
    }
    match (hex_digit(t[0]), hex_digit(t[1])) {
        (Some(hi), Some(lo)) => Some(Some(hi * 16 + lo)),
        _ => None,
    }
}

fn chars_of(s: &str) -> (r: Vec<char>)
    ensures
        r@ == s@,
{
    let mut r: Vec<char> = Vec::new();
    for c in it: s.chars()
        invariant
            r@ == it.seq().take(it.index() as int),
    {
        r.push(c);
    }
    r
}

impl PatternBytes {
    /// Reads a pattern from text. Fails with `Error::Parsing` exactly when a
    /// token is neither two hex digits nor `?` / `??`.
    pub fn parse_str(s: &str) -> (r: Result<PatternBytes, Error>)
        ensures
            r is Ok <==> text_valid(s@),
            r matches Ok(p) ==> p@ == text_cells(s@),
            r matches Err(e) ==> e is Parsing,
    {
        let chars = chars_of(s);
        let mut cells: Vec<Option<u8>> = Vec::new();
        let mut cur: Vec<char> = Vec::new();
        let ghost mut done: Seq<Seq<char>> = Seq::empty();
        let mut i: usize = 0;
        while i < chars.len()
            invariant
                chars@ == s@,
                i <= chars.len(),
                tokens(s@) == done + tokens_from(s@, i as int, cur@),
                forall|t: int| 0 <= t < done.len() ==> valid_token(#[trigger] done[t]),
                cells@ == done.map_values(|t: Seq<char>| token_cell(t)),
            decreases chars.len() - i,
        {
            if is_space_char(chars[i]) {
                if cur.len() > 0 {
                    match parse_token(&cur) {
                        Some(c) => {
                            cells.push(c);
                            proof {
                                assert(done + tokens_from(s@, i as int, cur@) =~= done.push(cur@)
                                    + tokens_from(s@, i + 1, Seq::empty()));
                                done = done.push(cur@);
                            }
                            assert(cells@ =~= done.map_values(|t: Seq<char>| token_cell(t)));
                        },
                        None => {
                            proof {
                                let k = done.len() as int;
                                assert(tokens(s@)[k] == cur@);
                            }
                            return Err(Error::Parsing);
                        },
                    }
                } else {
                    assert(tokens_from(s@, i as int, cur@) =~= tokens_from(s@, i + 1, Seq::empty()));
                }
                cur = Vec::new();
            } else {
                cur.push(chars[i]);
            }
            i = i + 1;
        }
        if cur.len() > 0 {
            match parse_token(&cur) {
                Some(c) => {
                    cells.push(c);
                    proof {
                        assert(tokens(s@) =~= done.push(cur@));
                        done = done.push(cur@);
                    }
                    assert(cells@ =~= done.map_values(|t: Seq<char>| token_cell(t)));
                },
                None => {
                    proof {
                        let k = done.len() as int;
                        assert(tokens(s@)[k] == cur@);
                    }
                    return Err(Error::Parsing);
                },
            }
        } else {
            assert(tokens(s@) =~= done);
        }
        Ok(PatternBytes(cells))
    }
}

/// The text of a cell: two upper-case hex digits, or `?`.
pub open spec fn cell_text(c: Option<u8>) -> Seq<char> {
    match c {
        Some(b) => seq![hex_char((b / 16) as int), hex_char((b % 16) as int)],
        None => seq!['?'],
    }
}

/// The upper-case hex digit of a value below 16.
pub open spec fn hex_char(v: int) -> char {
    if v < 10 {
        (48 + v) as char
    } else {
        (55 + v) as char
    }
}

/// The text of cells: each cell's text, separated by single spaces.
pub open spec fn cells_text(p: Seq<Option<u8>>) -> Seq<char>
    decreases p.len(),
{
    if p.len() == 0 {
        Seq::empty()
    } else if p.len() == 1 {
        cell_text(p[0])
    } else {
        cells_text(p.drop_last()) + seq![' '] + cell_text(p.last())
    }
}

/// Relies on `String::push`, which appends one character.
#[verifier::external_body]
fn push_char(s: &mut String, c: char)
    ensures
        final(s)@ == old(s)@.push(c),
{
    s.push(c);
}

fn digit_char(v: u8) -> (r: char)
    requires
        v < 16,
    ensures
        r == hex_char(v as int),
{
    if v < 10 {
        (48 + v) as char
    } else {
        (55 + v) as char
    }
}

impl PatternBytes {
    /// The pattern as text: each known byte as two upper-case hex digits,
    /// each wildcard as `?`, separated by single spaces.
    pub fn to_text(&self) -> (r: String)
        ensures
            r@ == cells_text(self@),
    {
        let mut out: Vec<char> = Vec::new();
        let mut i: usize = 0;
        while i < self.0.len()
            invariant
                i <= self@.len(),
                out@ == cells_text(self@.subrange(0, i as int)),
            decreases self@.len() - i,
        {
            proof {
                assert(self@.subrange(0, i + 1).drop_last() =~= self@.subrange(0, i as int));
            }
            if i > 0 {
                out.push(' ');
            }
            match self.0[i] {
                Some(b) => {
                    out.push(digit_char(b / 16));
                    out.push(digit_char(b % 16));
                },
                None => {
                    out.push('?');
                },
            }
            i = i + 1;
            assert(out@ =~= cells_text(self@.subrange(0, i as int)));
        }
        assert(self@.subrange(0, i as int) =~= self@);
        let mut text = String::new();
        let mut j: usize = 0;
        while j < out.len()
            invariant
                j <= out@.len(),
                text@ == out@.subrange(0, j as int),
            decreases out@.len() - j,
        {
            push_char(&mut text, out[j]);
            j = j + 1;
            assert(text@ =~= out@.subrange(0, j as int));
        }
        assert(out@.subrange(0, j as int) =~= out@);
        text
    }
}

impl PatternBytes {
    /// Reads each text as a pattern. Fails with `Error::Parsing` exactly when
    /// one of them holds a token that is neither hex nor a wildcard.
    pub fn patterns_from_strs(strs: &[&str]) -> (r: Result<Vec<PatternBytes>, Error>)
        ensures
            r is Ok <==> forall|k: int| 0 <= k < strs@.len() ==> text_valid(#[trigger] strs@[k]@),
            r matches Ok(v) ==> v@.len() == strs@.len() && forall|k: int|
                0 <= k < strs@.len() ==> (#[trigger] v@[k])@ == text_cells(strs@[k]@),
            r matches Err(e) ==> e is Parsing,
    {
        let mut out: Vec<PatternBytes> = Vec::new();
        let mut i: usize = 0;
        while i < strs.len()
            invariant
                i <= strs@.len(),
                out@.len() == i,
                forall|k: int| 0 <= k < i ==> text_valid(#[trigger] strs@[k]@),
                forall|k: int| 0 <= k < i ==> (#[trigger] out@[k])@ == text_cells(strs@[k]@),
            decreases strs@.len() - i,
        {
            match PatternBytes::parse_str(strs[i]) {
                Ok(p) => out.push(p),
                Err(e) => {
                    return Err(e);
                },
            }
            i = i + 1;
        }
        Ok(out)
    }

    /// A pattern of known bytes only, one cell per byte.
    pub fn from_bytes(bytes: &Vec<u8>) -> (r: PatternBytes)
        ensures
            r@ == bytes@.map_values(|b: u8| Some(b)),
    {
        let mut cells: Vec<Option<u8>> = Vec::new();
        let mut i: usize = 0;
        while i < bytes.len()
            invariant
                i <= bytes@.len(),
                cells@ == bytes@.subrange(0, i as int).map_values(|b: u8| Some(b)),
            decreases bytes@.len() - i,
        {
            cells.push(Some(bytes[i]));
            i = i + 1;
            assert(cells@ =~= bytes@.subrange(0, i as int).map_values(|b: u8| Some(b)));
        }
        assert(bytes@.subrange(0, i as int) =~= bytes@);
        PatternBytes(cells)
    }

    /// One pattern of known bytes only for each byte sequence.
    pub fn patterns_from_bytes(bytes: &[Vec<u8>]) -> (r: Vec<PatternBytes>)
        ensures
            r@.len() == bytes@.len(),
            forall|k: int|
                0 <= k < bytes@.len() ==> (#[trigger] r@[k])@ == bytes@[k]@.map_values(
                    |b: u8| Some(b),
                ),
    {
        let mut out: Vec<PatternBytes> = Vec::new();
        let mut i: usize = 0;
        while i < bytes.len()
            invariant
                i <= bytes@.len(),
                out@.len() == i,
                forall|k: int|
                    0 <= k < i ==> (#[trigger] out@[k])@ == bytes@[k]@.map_values(|b: u8| Some(b)),
            decreases bytes@.len() - i,
        {
            out.push(PatternBytes::from_bytes(&bytes[i]));
            i = i + 1;
        }
        out
    }
}

impl From<Vec<u8>> for PatternBytes {
    fn from(value: Vec<u8>) -> (r: PatternBytes)
        ensures
            r@ == value@.map_values(|b: u8| Some(b)),
    {
        PatternBytes::from_bytes(&value)
    }
}

impl vstd::std_specs::convert::FromSpecImpl<Vec<u8>> for PatternBytes {
    open spec fn obeys_from_spec() -> bool {
        false
    }

    open spec fn from_spec(v: Vec<u8>) -> PatternBytes {
        vstd::pervasive::arbitrary()
    }
}

impl std::str::FromStr for PatternBytes {
    type Err = Error;

    fn from_str(s: &str) -> (r: Result<PatternBytes, Error>)
        ensures
            r is Ok <==> text_valid(s@),
            r matches Ok(p) ==> p@ == text_cells(s@),
            r matches Err(e) ==> e is Parsing,
    {
        PatternBytes::parse_str(s)
    }
}

/// Tokens of a text split at a space: those before it, then those after.
proof fn lemma_tokens_split(s: Seq<char>, i: int, cur: Seq<char>, m: int)
    requires
        0 <= i <= m < s.len(),
        is_space(s[m]),
    ensures
        tokens_from(s, i, cur) == tokens_from(s.subrange(0, m), i, cur) + tokens_from(
            s,
            m + 1,
            Seq::empty(),
        ),
    decreases m - i,
{
    let pre = s.subrange(0, m);
    if i < m {
        assert(pre[i] == s[i]);
        if is_space(s[i]) {
            lemma_tokens_split(s, i + 1, Seq::empty(), m);
            let closed = if cur.len() > 0 {
                seq![cur]
            } else {
                Seq::empty()
            };
            assert(closed + tokens_from(s, i + 1, Seq::empty()) =~= closed + tokens_from(
                pre,
                i + 1,
                Seq::empty(),
            ) + tokens_from(s, m + 1, Seq::empty()));
        } else {
            lemma_tokens_split(s, i + 1, cur.push(s[i]), m);
        }
    }
}

/// From `i` on the text has no space: one token is left, if any.
proof fn lemma_tokens_tail(s: Seq<char>, i: int, cur: Seq<char>)
    requires
        0 <= i <= s.len(),
        forall|t: int| i <= t < s.len() ==> !is_space(#[trigger] s[t]),
    ensures
        tokens_from(s, i, cur) == (if cur.len() + s.len() - i > 0 {
            seq![cur + s.subrange(i, s.len() as int)]
        } else {
            Seq::empty()
        }),
    decreases s.len() - i,
{
    if i < s.len() {
        lemma_tokens_tail(s, i + 1, cur.push(s[i]));
        assert(cur.push(s[i]) + s.subrange(i + 1, s.len() as int) =~= cur + s.subrange(
            i,
            s.len() as int,
        ));
    } else {
        assert(cur + s.subrange(i, s.len() as int) =~= cur);
    }
}

proof fn lemma_cell_text(c: Option<u8>)
    ensures
        cell_text(c).len() > 0,
        forall|t: int| 0 <= t < cell_text(c).len() ==> !is_space(#[trigger] cell_text(c)[t]),
        valid_token(cell_text(c)),
        token_cell(cell_text(c)) == c,
{
    match c {
        Some(b) => {
            let hi = (b / 16) as int;
            let lo = (b % 16) as int;
            assert(hex_value(hex_char(hi)) == Some(hi));
            assert(hex_value(hex_char(lo)) == Some(lo));
            assert(16 * hi + lo == b as int);
        },
        None => {},
    }
}

proof fn lemma_tokens_of_text(p: Seq<Option<u8>>)
    ensures
        tokens(cells_text(p)) == p.map_values(|c: Option<u8>| cell_text(c)),
    decreases p.len(),
{
    let s = cells_text(p);
    if p.len() == 0 {
        assert(tokens(s) =~= p.map_values(|c: Option<u8>| cell_text(c)));
    } else if p.len() == 1 {
        lemma_cell_text(p[0]);
        lemma_tokens_tail(s, 0, Seq::empty());
        assert(Seq::<char>::empty() + s.subrange(0, s.len() as int) =~= s);
        assert(tokens(s) =~= p.map_values(|c: Option<u8>| cell_text(c)));
    } else {
        let a = cells_text(p.drop_last());
        let c = cell_text(p.last());
        lemma_cell_text(p.last());
        let m = a.len() as int;
        assert(s == a + seq![' '] + c);
        assert(s[m] == ' ');
        lemma_tokens_split(s, 0, Seq::empty(), m);
        assert(s.subrange(0, m) =~= a);
        assert forall|t: int| m + 1 <= t < s.len() implies !is_space(#[trigger] s[t]) by {
            assert(s[t] == c[t - m - 1]);
        }
        lemma_tokens_tail(s, m + 1, Seq::empty());
        assert(Seq::<char>::empty() + s.subrange(m + 1, s.len() as int) =~= c);
        lemma_tokens_of_text(p.drop_last());
        assert(tokens(s) =~= p.map_values(|c: Option<u8>| cell_text(c)));
    }
}

/// Reading back the text of a pattern gives the same pattern.
pub proof fn lemma_text_round_trip(p: Seq<Option<u8>>)
    ensures
        text_valid(cells_text(p)),
        text_cells(cells_text(p)) == p,
{
    lemma_tokens_of_text(p);
    let toks = tokens(cells_text(p));
    assert forall|t: int| 0 <= t < toks.len() implies valid_token(#[trigger] toks[t]) by {
        lemma_cell_text(p[t]);
    }
    assert forall|t: int| 0 <= t < p.len() implies text_cells(cells_text(p))[t] == p[t] by {
        lemma_cell_text(p[t]);
    }
    assert(text_cells(cells_text(p)) =~= p);
}

} // verus!
