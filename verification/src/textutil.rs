//! Text scanning shared by the data-file readers and the query parser:
//! lines, whitespace-separated fields, decimal numbers, and the few trusted
//! conversions between bytes and strings.

use vstd::prelude::*;
use vstd::utf8::{
    decode_utf8, encode_utf8, valid_utf8, is_ascii_chars, is_ascii_chars_encode_utf8,
    encode_utf8_valid_utf8, encode_utf8_decode_utf8,
};

verus! {

/// The whitespace the readers split on.
pub open spec fn is_ws(c: char) -> bool {
    c == ' ' || c == '\t' || c == '\r' || c == '\n'
}

/// First index at or after `from` holding `c`, else the length.
pub open spec fn spec_find(s: Seq<char>, from: int, c: char) -> int
    decreases s.len() - from,
{
    if from < 0 {
        spec_find(s, 0, c)
    } else if from >= s.len() {
        s.len() as int
    } else if s[from] == c {
        from
    } else {
        spec_find(s, from + 1, c)
    }
}

/// First index at or after `from` holding whitespace, else the length.
pub open spec fn spec_find_ws(s: Seq<char>, from: int) -> int
    decreases s.len() - from,
{
    if from < 0 {
        spec_find_ws(s, 0)
    } else if from >= s.len() {
        s.len() as int
    } else if is_ws(s[from]) {
        from
    } else {
        spec_find_ws(s, from + 1)
    }
}

/// First index at or after `from` holding non-whitespace, else the length.
pub open spec fn spec_skip_ws(s: Seq<char>, from: int) -> int
    decreases s.len() - from,
{
    if from < 0 {
        spec_skip_ws(s, 0)
    } else if from >= s.len() {
        s.len() as int
    } else if is_ws(s[from]) {
        spec_skip_ws(s, from + 1)
    } else {
        from
    }
}

/// Length of `s` with trailing whitespace dropped.
pub open spec fn spec_trim_end(s: Seq<char>) -> int
    decreases s.len(),
{
    if s.len() > 0 && is_ws(s[s.len() - 1]) {
        spec_trim_end(s.drop_last())
    } else {
        s.len() as int
    }
}

/// The whitespace-separated fields of a line, from index `from` on.
pub open spec fn spec_fields_from(s: Seq<char>, from: int) -> Seq<Seq<char>>
    decreases s.len() - from,
{
    if from < 0 {
        spec_fields_from(s, 0)
    } else if from >= s.len() {
        Seq::empty()
    } else if is_ws(s[from]) {
        spec_fields_from(s, from + 1)
    } else {
        let e = spec_find_ws(s, from);
        let e2 = if e <= from {
            from + 1
        } else if e > s.len() {
            s.len() as int
        } else {
            e
        };
        seq![s.subrange(from, e2)] + spec_fields_from(s, e2)
    }
}

/// A data-file line that carries content: it has a field and the field does
/// not open a comment.
pub open spec fn spec_is_content(line: Seq<char>) -> bool {
    let fs = spec_fields_from(line, 0);
    fs.len() > 0 && fs[0][0] != '#'
}

/// The content lines of a file, split on `'\n'`, from index `from` on.
pub open spec fn spec_content_lines_from(s: Seq<char>, from: int) -> Seq<Seq<char>>
    decreases s.len() - from,
{
    if from < 0 {
        spec_content_lines_from(s, 0)
    } else if from >= s.len() {
        Seq::empty()
    } else {
        let e = spec_find(s, from, '\n');
        let e2 = if e < from {
            from
        } else if e > s.len() {
            s.len() as int
        } else {
            e
        };
        let line = s.subrange(from, e2);
        let head = if spec_is_content(line) {
            seq![line]
        } else {
            Seq::<Seq<char>>::empty()
        };
        if e2 >= s.len() {
            head
        } else {
            head + spec_content_lines_from(s, e2 + 1)
        }
    }
}

/// The line with leading and trailing whitespace dropped.
pub open spec fn spec_trimmed(line: Seq<char>) -> Seq<char> {
    let a = spec_skip_ws(line, 0);
    let b = spec_trim_end(line);
    if a <= b {
        line.subrange(a, b)
    } else {
        Seq::empty()
    }
}

/// First index at or after `from` where `pat` occurs in `s`, else the length.
pub open spec fn spec_find_str(s: Seq<char>, pat: Seq<char>, from: int) -> int
    decreases s.len() - from,
{
    if from < 0 {
        spec_find_str(s, pat, 0)
    } else if from + pat.len() > s.len() {
        s.len() as int
    } else if pat.len() == 0 {
        from
    } else if s.subrange(from, from + pat.len() as int) == pat {
        from
    } else {
        spec_find_str(s, pat, from + 1)
    }
}

/// Bounds characterize `spec_find_str`.
pub proof fn lemma_find_str(s: Seq<char>, pat: Seq<char>, from: int, r: int)
    requires
        0 <= from <= r <= s.len(),
        forall|m: int|
            from <= m < r && m + pat.len() <= s.len() ==> #[trigger] s.subrange(
                m,
                m + pat.len() as int,
            ) != pat,
        r < s.len() ==> r + pat.len() <= s.len() && s.subrange(r, r + pat.len() as int) == pat,
    ensures
        spec_find_str(s, pat, from) == r,
    decreases r - from,
{
    if from + pat.len() > s.len() {
        if r < s.len() {
            assert(r + pat.len() <= s.len());
            assert(false);
        }
    } else if from < r {
        assert(s.subrange(from, from + pat.len() as int) != pat);
        if pat.len() == 0 {
            assert(s.subrange(from, from + pat.len() as int) =~= pat);
            assert(false);
        }
        lemma_find_str(s, pat, from + 1, r);
    } else {
        if r >= s.len() {
            assert(pat.len() == 0);
            assert(s.subrange(from, from + pat.len() as int) =~= pat);
        }
    }
}

/// Whether `pat` stands at position `i` of `chars`.
pub fn match_at(chars: &Vec<char>, i: usize, pat: &Vec<char>) -> (r: bool)
    requires
        i + pat@.len() <= chars@.len(),
    ensures
        r == (chars@.subrange(i as int, i + pat@.len() as int) == pat@),
{
    let total: usize = chars.len();
    let mut k: usize = 0;
    while k < pat.len()
        invariant
            k <= pat@.len(),
            total == chars@.len(),
            i + pat@.len() <= chars@.len(),
            forall|m: int| 0 <= m < k ==> chars@[i + m] == pat@[m],
        decreases pat@.len() - k,
    {
        if chars[i + k] != pat[k] {
            proof {
                assert(chars@.subrange(i as int, i + pat@.len() as int)[k as int] == chars@[i + k]);
            }
            return false;
        }
        k = k + 1;
    }
    proof {
        assert(chars@.subrange(i as int, i + pat@.len() as int) =~= pat@);
    }
    true
}

/// First occurrence of `pat` at or after `from`.
pub fn find_str_at(chars: &Vec<char>, from: usize, pat: &Vec<char>) -> (r: usize)
    requires
        from <= chars@.len(),
    ensures
        from <= r <= chars@.len(),
        r == spec_find_str(chars@, pat@, from as int),
        r < chars@.len() ==> r + pat@.len() <= chars@.len() && chars@.subrange(
            r as int,
            r + pat@.len() as int,
        ) == pat@,
{
    let n: usize = chars.len();
    let mut i: usize = from;
    while i < n && pat.len() <= n - i
        invariant
            from <= i,
            i <= n || i == from,
            n == chars@.len(),
            forall|m: int|
                from <= m < i && m + pat@.len() <= n ==> #[trigger] chars@.subrange(
                    m,
                    m + pat@.len() as int,
                ) != pat@,
        decreases n - i,
    {
        if match_at(chars, i, pat) {
            proof {
                lemma_find_str(chars@, pat@, from as int, i as int);
            }
            return i;
        }
        i = i + 1;
    }
    proof {
        lemma_find_str(chars@, pat@, from as int, n as int);
    }
    n
}

/// What stands after the first `' '` of the trimmed line: the template or
/// pattern tail of the two rest-of-line file formats.  `None` when the
/// trimmed line holds no space.
pub open spec fn spec_rest(line: Seq<char>) -> Option<Seq<char>> {
    let start = spec_skip_ws(line, 0);
    let tend = spec_trim_end(line);
    let p = spec_find(line, start, ' ');
    if p < tend {
        Some(line.subrange(p + 1, tend))
    } else {
        None
    }
}

/// Bounds characterize `spec_find`.
pub proof fn lemma_find_char(s: Seq<char>, from: int, c: char, r: int)
    requires
        0 <= from <= r <= s.len(),
        forall|m: int| from <= m < r ==> s[m] != c,
        r < s.len() ==> s[r] == c,
    ensures
        spec_find(s, from, c) == r,
    decreases r - from,
{
    if from < r {
        lemma_find_char(s, from + 1, c, r);
    }
}

/// Bounds characterize `spec_find_ws`.
pub proof fn lemma_find_ws(s: Seq<char>, from: int, r: int)
    requires
        0 <= from <= r <= s.len(),
        forall|m: int| from <= m < r ==> !is_ws(s[m]),
        r < s.len() ==> is_ws(s[r]),
    ensures
        spec_find_ws(s, from) == r,
    decreases r - from,
{
    if from < r {
        lemma_find_ws(s, from + 1, r);
    }
}

/// Bounds characterize `spec_skip_ws`.
pub proof fn lemma_skip_ws(s: Seq<char>, from: int, r: int)
    requires
        0 <= from <= r <= s.len(),
        forall|m: int| from <= m < r ==> is_ws(s[m]),
        r < s.len() ==> !is_ws(s[r]),
    ensures
        spec_skip_ws(s, from) == r,
    decreases r - from,
{
    if from < r {
        lemma_skip_ws(s, from + 1, r);
    }
}

/// Bounds characterize `spec_trim_end`.
pub proof fn lemma_trim_end(s: Seq<char>, r: int)
    requires
        0 <= r <= s.len(),
        forall|m: int| r <= m < s.len() ==> is_ws(s[m]),
        r > 0 ==> !is_ws(s[r - 1]),
    ensures
        spec_trim_end(s) == r,
    decreases s.len(),
{
    if s.len() > r {
        assert(is_ws(s[s.len() - 1]));
        assert forall|m: int| r <= m < s.drop_last().len() implies is_ws(s.drop_last()[m]) by {
            assert(s.drop_last()[m] == s[m]);
        }
        if r > 0 {
            assert(s.drop_last()[r - 1] == s[r - 1]);
        }
        lemma_trim_end(s.drop_last(), r);
    } else if s.len() > 0 {
        assert(!is_ws(s[s.len() - 1]));
    }
}

/// The characters of a string, one by one.
pub fn str_chars(s: &str) -> (r: Vec<char>)
    ensures
        r@ == s@,
{
    let n: usize = s.unicode_len();
    let mut r: Vec<char> = Vec::new();
    let mut i: usize = 0;
    while i < n
        invariant
            i <= n,
            n == s@.len(),
            r@ =~= s@.subrange(0, i as int),
        decreases n - i,
    {
        let c = s.get_char(i);
        proof {
            assert(s@.subrange(0, i + 1) =~= s@.subrange(0, i as int).push(s@[i as int]));
        }
        r.push(c);
        i = i + 1;
    }
    proof {
        assert(s@.subrange(0, s@.len() as int) =~= s@);
    }
    r
}

/// Relies on String::from_utf8: it succeeds exactly on valid UTF-8 and
/// decodes those bytes.
#[verifier::external_body]
fn string_from_utf8(v: Vec<u8>) -> (r: Option<String>)
    ensures
        match r {
            Some(s) => valid_utf8(v@) && s@ == decode_utf8(v@),
            None => !valid_utf8(v@),
        },
{
    String::from_utf8(v).ok()
}

/// A string holding exactly the given ASCII characters.
pub fn string_from_ascii_chars(v: &Vec<char>) -> (r: String)
    requires
        is_ascii_chars(v@),
    ensures
        r@ == v@,
{
    let mut bytes: Vec<u8> = Vec::new();
    let mut i: usize = 0;
    while i < v.len()
        invariant
            i <= v@.len(),
            is_ascii_chars(v@),
            bytes@ =~= Seq::new(i as nat, |m: int| v@[m] as u8),
        decreases v@.len() - i,
    {
        let c: char = v[i];
        proof {
            vstd::utf8::is_ascii_chars_nat_bound(v@);
            assert((v@[i as int] as nat) < 128);
            assert(((v@[i as int] as u32) as u8) == (v@[i as int] as u8));
            assert(Seq::new((i + 1) as nat, |m: int| v@[m] as u8) =~= Seq::new(
                i as nat,
                |m: int| v@[m] as u8,
            ).push(v@[i as int] as u8));
        }
        bytes.push((c as u32) as u8);
        i = i + 1;
    }
    proof {
        is_ascii_chars_encode_utf8(v@);
        assert(bytes@ =~= encode_utf8(v@));
        encode_utf8_valid_utf8(v@);
        encode_utf8_decode_utf8(v@);
    }
    match string_from_utf8(bytes) {
        Some(s) => s,
        None => {
            proof {
                assert(false);
            }
            String::new()
        },
    }
}

/// Relies on str::to_ascii_lowercase: ASCII upper-case letters are mapped to
/// lower case, every other character is kept.
#[verifier::external_body]
pub fn ascii_lower(s: &str) -> (r: String)
    ensures
        r@ == s@.map_values(|c: char| lower_char(c)),
{
    s.to_ascii_lowercase()
}

/// ASCII lower-casing of one character.
pub open spec fn lower_char(c: char) -> char {
    if 'A' <= c <= 'Z' {
        ((c as u32) + 32) as char
    } else {
        c
    }
}

/// First position of `c` at or after `from`.
pub fn find_char_at(v: &Vec<char>, from: usize, c: char) -> (r: usize)
    requires
        from <= v@.len(),
    ensures
        from <= r <= v@.len(),
        r == spec_find(v@, from as int, c),
        r < v@.len() ==> v@[r as int] == c,
        forall|m: int| from <= m < r ==> v@[m] != c,
{
    let n: usize = v.len();
    let mut i: usize = from;
    while i < n
        invariant
            from <= i <= n,
            n == v@.len(),
            forall|m: int| from <= m < i ==> v@[m] != c,
        decreases n - i,
    {
        if v[i] == c {
            proof {
                lemma_find_char(v@, from as int, c, i as int);
            }
            return i;
        }
        i = i + 1;
    }
    proof {
        lemma_find_char(v@, from as int, c, n as int);
    }
    n
}

/// Whether `c` is splitting whitespace.
pub fn is_ws_exec(c: char) -> (r: bool)
    ensures
        r == is_ws(c),
{
    c == ' ' || c == '\t' || c == '\r' || c == '\n'
}

/// First whitespace position at or after `from`.
pub fn find_ws_at(v: &Vec<char>, from: usize) -> (r: usize)
    requires
        from <= v@.len(),
    ensures
        from <= r <= v@.len(),
        r == spec_find_ws(v@, from as int),
        r < v@.len() ==> is_ws(v@[r as int]),
        forall|m: int| from <= m < r ==> !is_ws(v@[m]),
{
    let n: usize = v.len();
    let mut i: usize = from;
    while i < n
        invariant
            from <= i <= n,
            n == v@.len(),
            forall|m: int| from <= m < i ==> !is_ws(v@[m]),
        decreases n - i,
    {
        if is_ws_exec(v[i]) {
            proof {
                lemma_find_ws(v@, from as int, i as int);
            }
            return i;
        }
        i = i + 1;
    }
    proof {
        lemma_find_ws(v@, from as int, n as int);
    }
    n
}

/// First non-whitespace position at or after `from`.
pub fn skip_ws_at(v: &Vec<char>, from: usize) -> (r: usize)
    requires
        from <= v@.len(),
    ensures
        from <= r <= v@.len(),
        r == spec_skip_ws(v@, from as int),
        r < v@.len() ==> !is_ws(v@[r as int]),
        forall|m: int| from <= m < r ==> is_ws(v@[m]),
{
    let n: usize = v.len();
    let mut i: usize = from;
    while i < n
        invariant
            from <= i <= n,
            n == v@.len(),
            forall|m: int| from <= m < i ==> is_ws(v@[m]),
        decreases n - i,
    {
        if !is_ws_exec(v[i]) {
            proof {
                lemma_skip_ws(v@, from as int, i as int);
            }
            return i;
        }
        i = i + 1;
    }
    proof {
        lemma_skip_ws(v@, from as int, n as int);
    }
    n
}

/// Fields skip over leading whitespace.
pub proof fn lemma_fields_skip_ws(s: Seq<char>, from: int, to: int)
    requires
        0 <= from <= to <= s.len(),
        forall|m: int| from <= m < to ==> is_ws(s[m]),
    ensures
        spec_fields_from(s, from) == spec_fields_from(s, to),
    decreases to - from,
{
    if from < to {
        lemma_fields_skip_ws(s, from + 1, to);
    }
}

/// One content line: its whitespace-separated fields, and what stands after
/// the first space (for the rest-of-line formats).
pub struct ContentLine {
    pub fields: Vec<String>,
    pub rest: Option<String>,
    pub trimmed: String,
}

impl ContentLine {
    pub open spec fn fields_view(self) -> Seq<Seq<char>> {
        self.fields@.map_values(|f: String| f@)
    }

    pub open spec fn rest_view(self) -> Option<Seq<char>> {
        match self.rest {
            Some(r) => Some(r@),
            None => None,
        }
    }

    /// Matches what the specification-level readers compute for `line`.
    pub open spec fn wf_for(self, line: Seq<char>) -> bool {
        &&& self.fields_view() == spec_fields_from(line, 0)
        &&& self.rest_view() == spec_rest(line)
        &&& self.trimmed@ == spec_trimmed(line)
    }
}

/// Splits one line (given as `text[ls..le]`) into its fields and rest.
fn scan_line(text: &str, chars: &Vec<char>, ls: usize, le: usize) -> (r: ContentLine)
    requires
        chars@ == text@,
        ls <= le <= chars@.len(),
    ensures
        r.wf_for(text@.subrange(ls as int, le as int)),
{
    let ghost line = text@.subrange(ls as int, le as int);
    let mut fields: Vec<String> = Vec::new();
    let mut pos: usize = ls;
    proof {
        assert(fields@.map_values(|f: String| f@) =~= Seq::<Seq<char>>::empty());
        assert(Seq::<Seq<char>>::empty() + spec_fields_from(line, 0) =~= spec_fields_from(line, 0));
    }
    while pos < le
        invariant
            ls <= pos <= le <= chars@.len(),
            chars@ == text@,
            line == text@.subrange(ls as int, le as int),
            spec_fields_from(line, 0) == fields@.map_values(|f: String| f@) + spec_fields_from(
                line,
                pos - ls,
            ),
        decreases le - pos,
    {
        let ghost fv = fields@.map_values(|f: String| f@);
        let a = skip_ws_at(chars, pos);
        let a2: usize = if a > le {
            le
        } else {
            a
        };
        proof {
            assert forall|m: int| pos - ls <= m < a2 - ls implies is_ws(line[m]) by {
                assert(line[m] == chars@[ls + m]);
            }
            lemma_fields_skip_ws(line, pos - ls, a2 - ls);
        }
        if a2 == le {
            pos = le;
        } else {
            let b = find_ws_at(chars, a2);
            let b2: usize = if b > le {
                le
            } else {
                b
            };
            let field: String = text.substring_char(a2, b2).to_owned();
            proof {
                assert forall|m: int| a2 - ls <= m < b2 - ls implies !is_ws(line[m]) by {
                    assert(line[m] == chars@[ls + m]);
                }
                assert(b2 - ls < line.len() ==> is_ws(line[b2 - ls])) by {
                    if b2 < le {
                        assert(line[b2 - ls] == chars@[b2 as int]);
                    }
                }
                lemma_find_ws(line, a2 - ls, b2 - ls);
                assert(!is_ws(line[a2 - ls])) by {
                    assert(line[a2 - ls] == chars@[a2 as int]);
                }
                assert(field@ =~= line.subrange(a2 - ls, b2 - ls));
                assert(spec_fields_from(line, a2 - ls) == seq![line.subrange(a2 - ls, b2 - ls)]
                    + spec_fields_from(line, b2 - ls));
                assert(fields@.push(field).map_values(|f: String| f@) =~= fv + seq![field@]);
                assert(fv + (seq![field@] + spec_fields_from(line, b2 - ls)) =~= (fv + seq![field@])
                    + spec_fields_from(line, b2 - ls));
            }
            fields.push(field);
            pos = b2;
        }
    }
    proof {
        assert(spec_fields_from(line, le - ls) == Seq::<Seq<char>>::empty());
        assert(fields@.map_values(|f: String| f@) + Seq::<Seq<char>>::empty() =~= fields@.map_values(
            |f: String| f@,
        ));
    }
    // the rest-of-line tail: after the first ' ' of the trimmed line
    let start = skip_ws_at(chars, ls);
    let start2: usize = if start > le {
        le
    } else {
        start
    };
    let mut tend: usize = le;
    while tend > ls && is_ws_exec(chars[tend - 1])
        invariant
            ls <= tend <= le <= chars@.len(),
            chars@ == text@,
            line == text@.subrange(ls as int, le as int),
            forall|m: int| tend - ls <= m < line.len() ==> is_ws(line[m]),
        decreases tend,
    {
        proof {
            assert(line[tend - 1 - ls] == chars@[tend - 1]);
        }
        tend = tend - 1;
    }
    proof {
        assert(tend > ls ==> !is_ws(line[tend - 1 - ls])) by {
            if tend > ls {
                assert(line[tend - 1 - ls] == chars@[tend - 1]);
            }
        }
        lemma_trim_end(line, tend - ls);
        assert forall|m: int| 0 <= m < start2 - ls implies is_ws(line[m]) by {
            assert(line[m] == chars@[ls + m]);
        }
        assert(start2 - ls < line.len() ==> !is_ws(line[start2 - ls])) by {
            if start2 < le {
                assert(line[start2 - ls] == chars@[start2 as int]);
            }
        }
        lemma_skip_ws(line, 0, start2 - ls);
    }
    let p = find_char_at(chars, start2, ' ');
    let p2: usize = if p > le {
        le
    } else {
        p
    };
    proof {
        assert forall|m: int| start2 - ls <= m < p2 - ls implies line[m] != ' ' by {
            assert(line[m] == chars@[ls + m]);
        }
        assert(p2 - ls < line.len() ==> line[p2 - ls] == ' ') by {
            if p2 < le {
                assert(line[p2 - ls] == chars@[p2 as int]);
            }
        }
        lemma_find_char(line, start2 - ls, ' ', p2 - ls);
    }
    let rest: Option<String> = if p2 < tend {
        let r = text.substring_char(p2 + 1, tend).to_owned();
        proof {
            assert(r@ =~= line.subrange(p2 + 1 - ls, tend - ls));
        }
        Some(r)
    } else {
        None
    };
    let trimmed: String = if start2 <= tend {
        let t = text.substring_char(start2, tend).to_owned();
        proof {
            assert(t@ =~= line.subrange(start2 - ls, tend - ls));
        }
        t
    } else {
        String::new()
    };
    ContentLine { fields, rest, trimmed }
}

/// The content lines of a data file: comment and blank lines are dropped,
/// each other line is split into whitespace-separated fields, and the text
/// after its first space is kept for the rest-of-line formats.
pub fn content_lines(text: &str) -> (r: Vec<ContentLine>)
    ensures
        r@.len() == spec_content_lines_from(text@, 0).len(),
        forall|i: int|
            0 <= i < r@.len() ==> #[trigger] r@[i].wf_for(spec_content_lines_from(text@, 0)[i]),
{
    let chars = str_chars(text);
    let n: usize = chars.len();
    let mut out: Vec<ContentLine> = Vec::new();
    let mut pos: usize = 0;
    let ghost whole = spec_content_lines_from(text@, 0);
    proof {
        assert(Seq::new(0nat, |i: int| whole[i]) =~= Seq::<Seq<char>>::empty());
        assert(Seq::<Seq<char>>::empty() + spec_content_lines_from(text@, 0) =~= whole);
    }
    while pos < n
        invariant
            pos <= n,
            n == chars@.len(),
            chars@ == text@,
            whole == spec_content_lines_from(text@, 0),
            whole =~= {
                let done = Seq::new(out@.len() as nat, |i: int| whole[i]);
                done + spec_content_lines_from(text@, pos as int)
            },
            out@.len() <= whole.len(),
            forall|i: int| 0 <= i < out@.len() ==> #[trigger] out@[i].wf_for(whole[i]),
        decreases n - pos,
    {
        let e = find_char_at(&chars, pos, '\n');
        let ghost lineseq = text@.subrange(pos as int, e as int);
        let cl = scan_line(text, &chars, pos, e);
        let content: bool = cl.fields.len() > 0;
        let ghost done = Seq::new(out@.len() as nat, |i: int| whole[i]);
        let keep: bool = if content {
            let f0 = &cl.fields[0];
            let f0chars = str_chars(f0.as_str());
            proof {
                assert(cl.fields_view()[0] == f0@);
            }
            if f0chars.len() > 0 {
                f0chars[0] != '#'
            } else {
                true
            }
        } else {
            false
        };
        proof {
            let fs = spec_fields_from(lineseq, 0);
            if fs.len() > 0 {
                assert(fs[0].len() > 0) by {
                    lemma_fields_first_nonempty(lineseq, 0);
                }
            }
            assert(keep == spec_is_content(lineseq));
        }
        if keep {
            out.push(cl);
            proof {
                let done2 = Seq::new(out@.len() as nat, |i: int| whole[i]);
                assert(spec_content_lines_from(text@, pos as int) == seq![lineseq]
                    + spec_content_lines_from_tail(text@, pos as int, e as int));
                assert(done2 =~= done.push(whole[done.len() as int]));
                assert(whole[done.len() as int] == lineseq);
                assert(done2 + spec_content_lines_from_tail(text@, pos as int, e as int)
                    =~= done + spec_content_lines_from(text@, pos as int));
            }
        } else {
            proof {
                assert(spec_content_lines_from(text@, pos as int)
                    == spec_content_lines_from_tail(text@, pos as int, e as int));
            }
        }
        if e >= n {
            pos = n;
            proof {
                assert(spec_content_lines_from_tail(text@, pos as int, e as int)
                    == spec_content_lines_from(text@, n as int));
            }
        } else {
            pos = e + 1;
        }
    }
    proof {
        assert(spec_content_lines_from(text@, n as int) == Seq::<Seq<char>>::empty());
        assert(Seq::new(out@.len() as nat, |i: int| whole[i]) + Seq::<Seq<char>>::empty()
            =~= Seq::new(out@.len() as nat, |i: int| whole[i]));
        assert(whole =~= Seq::new(out@.len() as nat, |i: int| whole[i]));
        assert(out@.len() == whole.len());
    }
    out
}

/// What follows the first line, in `spec_content_lines_from` terms.
pub open spec fn spec_content_lines_from_tail(s: Seq<char>, from: int, e: int) -> Seq<Seq<char>> {
    if e >= s.len() {
        Seq::empty()
    } else {
        spec_content_lines_from(s, e + 1)
    }
}

pub open spec fn is_digit(c: char) -> bool {
    '0' <= c <= '9'
}

pub open spec fn digit_val(c: char) -> int {
    c as int - 48
}

pub open spec fn spec_all_digits(s: Seq<char>) -> bool {
    forall|i: int| 0 <= i < s.len() ==> is_digit(#[trigger] s[i])
}

/// Value of a digit string, most significant first.
pub open spec fn spec_dec_val(s: Seq<char>) -> int
    decreases s.len(),
{
    if s.len() == 0 {
        0
    } else {
        spec_dec_val(s.drop_last()) * 10 + digit_val(s.last())
    }
}

/// How Rust reads an unsigned decimal: an optional `'+'`, then one or more
/// digits, valued below 2^64.
pub open spec fn spec_parse_u64(s: Seq<char>) -> Option<int> {
    let body = if s.len() > 0 && s[0] == '+' {
        s.drop_first()
    } else {
        s
    };
    if body.len() > 0 && spec_all_digits(body) && 0 <= spec_dec_val(body) <= 0xFFFF_FFFF_FFFF_FFFF {
        Some(spec_dec_val(body))
    } else {
        None
    }
}

pub proof fn lemma_dec_val_nonneg(s: Seq<char>)
    requires
        spec_all_digits(s),
    ensures
        spec_dec_val(s) >= 0,
    decreases s.len(),
{
    if s.len() > 0 {
        assert forall|i: int| 0 <= i < s.drop_last().len() implies is_digit(
            #[trigger] s.drop_last()[i],
        ) by {
            assert(s.drop_last()[i] == s[i]);
        }
        lemma_dec_val_nonneg(s.drop_last());
        assert(is_digit(s.last()));
        assert(spec_dec_val(s.drop_last()) * 10 >= 0) by (nonlinear_arith)
            requires
                spec_dec_val(s.drop_last()) >= 0,
        ;
    }
}

/// A digit string is worth at least any of its prefixes.
pub proof fn lemma_dec_val_prefix(s: Seq<char>, i: int)
    requires
        spec_all_digits(s),
        0 <= i <= s.len(),
    ensures
        spec_dec_val(s.take(i)) <= spec_dec_val(s),
    decreases s.len() - i,
{
    if i < s.len() {
        lemma_dec_val_prefix(s, i + 1);
        assert(s.take(i + 1).drop_last() =~= s.take(i));
        assert(s.take(i + 1).last() == s[i]);
        assert forall|m: int| 0 <= m < s.take(i).len() implies is_digit(#[trigger] s.take(i)[m]) by {
            assert(s.take(i)[m] == s[m]);
        }
        lemma_dec_val_nonneg(s.take(i));
        assert(spec_dec_val(s.take(i)) * 10 >= spec_dec_val(s.take(i))) by (nonlinear_arith)
            requires
                spec_dec_val(s.take(i)) >= 0,
        ;
        assert(is_digit(s[i]));
    } else {
        assert(s.take(i) =~= s);
    }
}

/// Reads an unsigned decimal the way `u64::from_str` does.
pub fn parse_u64(s: &str) -> (r: Option<u64>)
    ensures
        match spec_parse_u64(s@) {
            Some(v) => r == Some(v as u64),
            None => r is None,
        },
{
    let chars = str_chars(s);
    let n: usize = chars.len();
    let start: usize = if n > 0 && chars[0] == '+' {
        1
    } else {
        0
    };
    let ghost body = if s@.len() > 0 && s@[0] == '+' {
        s@.drop_first()
    } else {
        s@
    };
    proof {
        assert(body =~= s@.subrange(start as int, n as int));
    }
    if n == start {
        return None;
    }
    let mut acc: u64 = 0;
    let mut i: usize = start;
    proof {
        assert(body.take(0) =~= Seq::<char>::empty());
    }
    while i < n
        invariant
            start <= i <= n,
            n == chars@.len(),
            chars@ == s@,
            body =~= s@.subrange(start as int, n as int),
            body == (if s@.len() > 0 && s@[0] == '+' {
                s@.drop_first()
            } else {
                s@
            }),
            forall|m: int| 0 <= m < i - start ==> is_digit(#[trigger] body[m]),
            acc == spec_dec_val(body.take(i - start)),
        decreases n - i,
    {
        let c: char = chars[i];
        proof {
            assert(body[i - start] == s@[i as int]);
        }
        if !(c >= '0' && c <= '9') {
            proof {
                assert(!is_digit(body[i - start]));
                assert(!spec_all_digits(body));
                assert(spec_parse_u64(s@) is None);
            }
            return None;
        }
        let d: u64 = (c as u32 as u64) - 48;
        proof {
            assert(body.take(i - start + 1).drop_last() =~= body.take(i - start));
            assert(body.take(i - start + 1).last() == body[i - start]);
            assert forall|m: int| 0 <= m < body.take(i + 1 - start).len() implies is_digit(
                #[trigger] body.take(i + 1 - start)[m],
            ) by {
                assert(body.take(i + 1 - start)[m] == body[m]);
            }
        }
        if acc > (0xFFFF_FFFF_FFFF_FFFFu64 - d) / 10 {
            proof {
                vstd::arithmetic::div_mod::lemma_fundamental_div_mod(
                    0xFFFF_FFFF_FFFF_FFFF - d,
                    10,
                );
                vstd::arithmetic::div_mod::lemma_mod_division_less_than_divisor(
                    0xFFFF_FFFF_FFFF_FFFF - d,
                    10,
                );
                assert(spec_dec_val(body.take(i - start + 1)) > 0xFFFF_FFFF_FFFF_FFFF);
                if spec_all_digits(body) {
                    lemma_dec_val_prefix(body, i - start + 1);
                    assert(spec_dec_val(body) > 0xFFFF_FFFF_FFFF_FFFF);
                }
                assert(spec_parse_u64(s@) is None);
            }
            return None;
        }
        proof {
            vstd::arithmetic::div_mod::lemma_fundamental_div_mod(0xFFFF_FFFF_FFFF_FFFF - d, 10);
            vstd::arithmetic::div_mod::lemma_mod_division_less_than_divisor(
                0xFFFF_FFFF_FFFF_FFFF - d,
                10,
            );
        }
        acc = acc * 10 + d;
        i = i + 1;
    }
    proof {
        assert(body.take(n - start) =~= body);
        assert(spec_all_digits(body));
    }
    Some(acc)
}

/// The decimal digits of `n`, most significant first.
pub open spec fn spec_dec_chars(n: nat) -> Seq<char>
    decreases n,
{
    if n < 10 {
        seq![digit_to_char(n as int)]
    } else {
        spec_dec_chars(n / 10).push(digit_to_char((n % 10) as int))
    }
}

pub open spec fn digit_to_char(d: int) -> char {
    ((48 + d) as u8) as char
}

/// Decimal digits are ASCII.
pub proof fn lemma_dec_chars_ascii(n: nat)
    ensures
        is_ascii_chars(spec_dec_chars(n)),
        spec_dec_chars(n).len() >= 1,
    decreases n,
{
    if n < 10 {
    } else {
        lemma_dec_chars_ascii(n / 10);
        let s = spec_dec_chars(n);
        assert forall|i: int| 0 <= i < s.len() implies '\0' <= #[trigger] s[i] <= '\u{7f}' by {
            if i < s.len() - 1 {
                assert(s[i] == spec_dec_chars(n / 10)[i]);
            } else {
                vstd::arithmetic::div_mod::lemma_mod_division_less_than_divisor(n as int, 10);
            }
        }
    }
}

/// Writes `n` in decimal.
pub fn dec_chars_u64(n: u64) -> (r: Vec<char>)
    ensures
        r@ == spec_dec_chars(n as nat),
    decreases n,
{
    proof {
        vstd::arithmetic::div_mod::lemma_mod_division_less_than_divisor(n as int, 10);
    }
    if n < 10 {
        let c: char = ((48 + n as u8)) as char;
        let mut r: Vec<char> = Vec::new();
        r.push(c);
        proof {
            assert(r@ =~= spec_dec_chars(n as nat));
        }
        r
    } else {
        proof {
            vstd::arithmetic::div_mod::lemma_div_is_ordered_by_denominator(n as int, 1, 10);
            vstd::arithmetic::div_mod::lemma_div_by_self(10);
            vstd::arithmetic::div_mod::lemma_div_is_strictly_smaller(n as int, 10);
        }
        let mut r = dec_chars_u64(n / 10);
        let c: char = ((48 + (n % 10) as u8)) as char;
        r.push(c);
        proof {
            assert(r@ =~= spec_dec_chars(n as nat));
        }
        r
    }
}

/// Writes `n` in decimal, as a string.
pub fn u64_to_string(n: u64) -> (r: String)
    ensures
        r@ == spec_dec_chars(n as nat),
{
    let v = dec_chars_u64(n);
    proof {
        lemma_dec_chars_ascii(n as nat);
    }
    string_from_ascii_chars(&v)
}

/// The first field of a line is never empty.
pub proof fn lemma_fields_first_nonempty(s: Seq<char>, from: int)
    requires
        0 <= from,
        spec_fields_from(s, from).len() > 0,
    ensures
        spec_fields_from(s, from)[0].len() > 0,
    decreases s.len() - from,
{
    if from < s.len() {
        if is_ws(s[from]) {
            lemma_fields_first_nonempty(s, from + 1);
        }
    }
}

} // verus!
