use vstd::prelude::*;

use crate::dynamic_arrays::min_int;
use crate::model::{Model, is_error, is_number, is_text};
use crate::number::{Number, SCALE, spec_to_usize};
use crate::strings::{char_from_u32, chars_of, lowercase, string_of, to_lowercase};
use crate::text::{extend_chars, left_chars, right_chars};
use crate::textutil::{find_from, find_from_bytes, slice_chars};
use crate::values::{CalcResult, ErrorKind};
use vstd::utf8::{encode_utf8, is_char_boundary};

verus! {

/// The code ASC gives a character: full-width ASCII forms become their
/// ASCII characters and the ideographic space a plain space.
pub open spec fn asc_code(u: u32) -> u32 {
    if 0xFF01 <= u <= 0xFF5E {
        (u - 0xFEE0) as u32
    } else if u == 0x3000 {
        0x20
    } else {
        u
    }
}

/// The code JIS gives a character: printable ASCII becomes its full-width
/// form and a space the ideographic space.
pub open spec fn jis_code(u: u32) -> u32 {
    if 0x21 <= u <= 0x7E {
        (u + 0xFEE0) as u32
    } else if u == 0x20 {
        0x3000
    } else {
        u
    }
}

/// `t` is `s` with every character's code mapped as ASC maps it.
pub open spec fn asc_of(s: Seq<char>, t: Seq<char>) -> bool {
    &&& t.len() == s.len()
    &&& forall|i: int| 0 <= i < s.len() ==> #[trigger] (t[i] as u32) == asc_code(s[i] as u32)
}

/// `t` is `s` with every character's code mapped as JIS maps it.
pub open spec fn jis_of(s: Seq<char>, t: Seq<char>) -> bool {
    &&& t.len() == s.len()
    &&& forall|i: int| 0 <= i < s.len() ==> #[trigger] (t[i] as u32) == jis_code(s[i] as u32)
}

fn asc_char(c: char) -> (r: char)
    ensures
        r as u32 == asc_code(c as u32),
{
    let code = c as u32;
    if 0xFF01 <= code && code <= 0xFF5E {
        match char_from_u32(code - 0xFEE0) {
            Some(d) => d,
            None => c,
        }
    } else if code == 0x3000 {
        ' '
    } else {
        c
    }
}

fn jis_char(c: char) -> (r: char)
    ensures
        r as u32 == jis_code(c as u32),
{
    let code = c as u32;
    if 0x21 <= code && code <= 0x7E {
        match char_from_u32(code + 0xFEE0) {
            Some(d) => d,
            None => c,
        }
    } else if c == ' ' {
        '\u{3000}'
    } else {
        c
    }
}

/// The number of bytes of a text in UTF-8.
pub open spec fn byte_len(s: Seq<char>) -> int {
    encode_utf8(s).len() as int
}

/// The start of FINDB, SEARCHB, MIDB and REPLACEB, zero-based: the number
/// truncated toward zero, less one, never below zero.
pub open spec fn zero_based(n: Number) -> int {
    if spec_to_usize(n) >= 1 {
        spec_to_usize(n) - 1
    } else {
        0
    }
}

/// FINDB's and SEARCHB's start, zero when not given.
pub open spec fn byte_start(start_num: Option<Number>) -> int {
    match start_num {
        Some(n) => zero_based(n),
        None => 0,
    }
}

/// The search starts on a character boundary of the searched text.
pub open spec fn starts_on_boundary(hay: Seq<u8>, start: int) -> bool {
    is_char_boundary(hay, min_int(start, hay.len() as int))
}

/// What FINDB and SEARCHB give for a search of `needle` in `hay` from byte
/// `start`: one more than the offset of the first occurrence in what
/// follows `start`, plus `start`; `#VALUE!` when there is none.
pub open spec fn byte_find_result(r: CalcResult, hay: Seq<u8>, needle: Seq<u8>, start: int) -> bool {
    let k = min_int(start, hay.len() as int);
    match find_from(hay, needle, k) {
        Some(p) => is_number(r, (p - k + start + 1) * SCALE),
        None => is_error(r, ErrorKind::Value),
    }
}

fn zero_based_exec(n: Number) -> (r: usize)
    ensures
        r == zero_based(n),
{
    let v = n.to_usize();
    if v >= 1 {
        v - 1
    } else {
        0
    }
}

fn byte_search(hay: &[u8], needle: &[u8], start: usize) -> (r: CalcResult)
    ensures
        byte_find_result(r, hay@, needle@, start as int),
{
    let k = if start < hay.len() {
        start
    } else {
        hay.len()
    };
    match find_from_bytes(hay, needle, k) {
        Some(p) => {
            proof {
                crate::textutil::lemma_find_from(hay@, needle@, k as int);
            }
            let pos: u128 = (p - k) as u128 + start as u128 + 1;
            CalcResult::Number(Number::from_scaled((pos as i128) * SCALE))
        },
        None => CalcResult::Error(ErrorKind::Value),
    }
}

/// The start of MIDB and REPLACEB plus the count stay within `usize`.
pub open spec fn span_fits(start_num: Number, num_bytes: Number) -> bool {
    zero_based(start_num) + spec_to_usize(num_bytes) <= usize::MAX
}

impl Model {
    /// ASC(text): full-width ASCII forms turned into ASCII, the ideographic
    /// space into a space.
    pub fn fn_asc(&self, text: &str) -> (r: CalcResult)
        ensures
            r is Text && asc_of(text@, r->Text_0@),
    {
        let t = chars_of(text);
        let mut out: Vec<char> = Vec::new();
        let mut i: usize = 0;
        while i < t.len()
            invariant
                i <= t.len(),
                out.len() == i,
                forall|j: int| 0 <= j < i ==> #[trigger] (out@[j] as u32) == asc_code(t@[j] as u32),
            decreases t.len() - i,
        {
            out.push(asc_char(t[i]));
            i += 1;
        }
        CalcResult::Text(string_of(&out))
    }

    /// JIS(text): printable ASCII turned into full-width forms, a space into
    /// the ideographic space.
    pub fn fn_jis(&self, text: &str) -> (r: CalcResult)
        ensures
            r is Text && jis_of(text@, r->Text_0@),
    {
        let t = chars_of(text);
        let mut out: Vec<char> = Vec::new();
        let mut i: usize = 0;
        while i < t.len()
            invariant
                i <= t.len(),
                out.len() == i,
                forall|j: int| 0 <= j < i ==> #[trigger] (out@[j] as u32) == jis_code(t@[j] as u32),
            decreases t.len() - i,
        {
            out.push(jis_char(t[i]));
            i += 1;
        }
        CalcResult::Text(string_of(&out))
    }

    /// DBCS(text): the same as JIS.
    pub fn fn_dbcs(&self, text: &str) -> (r: CalcResult)
        ensures
            r is Text && jis_of(text@, r->Text_0@),
    {
        self.fn_jis(text)
    }

    /// LEFTB(text, [num_bytes]): the first `num_bytes` characters (the count
    /// truncated toward zero; one by default).
    pub fn fn_leftb(&self, text: &str, num_bytes: Option<Number>) -> (r: CalcResult)
        ensures
            is_text(
                r,
                left_chars(
                    text@,
                    match num_bytes {
                        Some(n) => spec_to_usize(n),
                        None => 1,
                    },
                ),
            ),
    {
        let t = chars_of(text);
        let n: usize = match num_bytes {
            Some(x) => x.to_usize(),
            None => 1,
        };
        let end = if n < t.len() {
            n
        } else {
            t.len()
        };
        CalcResult::Text(string_of(&slice_chars(&t, 0, end)))
    }

    /// LENB(text): the number of bytes of the text.
    pub fn fn_lenb(&self, text: &str) -> (r: CalcResult)
        ensures
            is_number(r, byte_len(text@) * SCALE),
    {
        let bytes = text.as_bytes();
        CalcResult::Number(Number::from_count(bytes.len()))
    }

    /// MIDB(text, start_num, num_bytes): `num_bytes` characters from the
    /// one-based `start_num` on (both truncated toward zero).
    pub fn fn_midb(&self, text: &str, start_num: Number, num_bytes: Number) -> (r: CalcResult)
        ensures
            ({
                let a = min_int(zero_based(start_num), text@.len() as int);
                let b = min_int(zero_based(start_num) + spec_to_usize(num_bytes), text@.len() as int);
                is_text(r, text@.subrange(a, b))
            }),
    {
        let t = chars_of(text);
        let s0 = zero_based_exec(start_num);
        let n = num_bytes.to_usize();
        let a = if s0 < t.len() {
            s0
        } else {
            t.len()
        };
        let b = if n < t.len() - a {
            a + n
        } else {
            t.len()
        };
        CalcResult::Text(string_of(&slice_chars(&t, a, b)))
    }

    /// RIGHTB(text, [num_bytes]): the last `num_bytes` characters (the count
    /// truncated toward zero; one by default).
    pub fn fn_rightb(&self, text: &str, num_bytes: Option<Number>) -> (r: CalcResult)
        ensures
            is_text(
                r,
                right_chars(
                    text@,
                    match num_bytes {
                        Some(n) => spec_to_usize(n),
                        None => 1,
                    },
                ),
            ),
    {
        let t = chars_of(text);
        let n: usize = match num_bytes {
            Some(x) => x.to_usize(),
            None => 1,
        };
        let take = if n < t.len() {
            n
        } else {
            t.len()
        };
        CalcResult::Text(string_of(&slice_chars(&t, t.len() - take, t.len())))
    }

    /// FINDB(find_text, within_text, [start_num]): the one-based byte
    /// position of `find_text` in `within_text` from the byte `start_num`
    /// on (see `byte_find_result`); `#VALUE!` when it does not occur.
    pub fn fn_findb(&self, find_text: &str, within_text: &str, start_num: Option<Number>) -> (r: CalcResult)
        requires
            starts_on_boundary(encode_utf8(within_text@), byte_start(start_num)),
        ensures
            byte_find_result(r, encode_utf8(within_text@), encode_utf8(find_text@), byte_start(start_num)),
    {
        let start: usize = match start_num {
            Some(n) => zero_based_exec(n),
            None => 0,
        };
        byte_search(within_text.as_bytes(), find_text.as_bytes(), start)
    }

    /// SEARCHB(find_text, within_text, [start_num]): FINDB on the lowered
    /// texts.
    pub fn fn_searchb(&self, find_text: &str, within_text: &str, start_num: Option<Number>) -> (r: CalcResult)
        requires
            starts_on_boundary(encode_utf8(lowercase(within_text@)), byte_start(start_num)),
        ensures
            byte_find_result(
                r,
                encode_utf8(lowercase(within_text@)),
                encode_utf8(lowercase(find_text@)),
                byte_start(start_num),
            ),
    {
        let start: usize = match start_num {
            Some(n) => zero_based_exec(n),
            None => 0,
        };
        let f = to_lowercase(find_text);
        let w = to_lowercase(within_text);
        byte_search(w.as_str().as_bytes(), f.as_str().as_bytes(), start)
    }

    /// SEARCHB where the start may fall inside a character of the lowered
    /// text: none in that case, else what `fn_searchb` gives.
    pub fn searchb_checked(&self, find_text: &str, within_text: &str, start_num: Option<Number>) -> (r: Option<
        CalcResult,
    >)
        ensures
            match r {
                None => !starts_on_boundary(encode_utf8(lowercase(within_text@)), byte_start(start_num)),
                Some(c) => starts_on_boundary(encode_utf8(lowercase(within_text@)), byte_start(start_num))
                    && byte_find_result(
                    c,
                    encode_utf8(lowercase(within_text@)),
                    encode_utf8(lowercase(find_text@)),
                    byte_start(start_num),
                ),
            },
    {
        let start: usize = match start_num {
            Some(n) => zero_based_exec(n),
            None => 0,
        };
        let w = to_lowercase(within_text);
        let len = w.as_str().as_bytes().len();
        let k = if start < len {
            start
        } else {
            len
        };
        if !w.as_str().is_char_boundary(k) {
            return None;
        }
        Some(self.fn_searchb(find_text, within_text, start_num))
    }

    /// REPLACEB(old_text, start_num, num_bytes, new_text): `num_bytes`
    /// characters from the one-based `start_num` on replaced by `new_text`
    /// (both numbers truncated toward zero).
    pub fn fn_replaceb(&self, old_text: &str, start_num: Number, num_bytes: Number, new_text: &str) -> (r: CalcResult)
        requires
            span_fits(start_num, num_bytes),
        ensures
            ({
                let s = zero_based(start_num);
                let t = old_text@;
                is_text(
                    r,
                    t.take(min_int(s, t.len() as int)) + new_text@ + t.skip(
                        min_int(s + spec_to_usize(num_bytes), t.len() as int),
                    ),
                )
            }),
    {
        let t = chars_of(old_text);
        let s0 = zero_based_exec(start_num);
        let n = num_bytes.to_usize();
        let a = if s0 < t.len() {
            s0
        } else {
            t.len()
        };
        let b = if s0 + n < t.len() {
            s0 + n
        } else {
            t.len()
        };
        let mut out = slice_chars(&t, 0, a);
        let u = chars_of(new_text);
        extend_chars(&mut out, &u);
        let rest = slice_chars(&t, b, t.len());
        extend_chars(&mut out, &rest);
        CalcResult::Text(string_of(&out))
    }

    /// BAHTTEXT(number): a fixed text saying that the conversion to Thai
    /// words is not available.
    pub fn fn_bahttext(&self) -> (r: CalcResult)
        ensures
            is_text(r, "BAHTTEXT not implemented"@),
    {
        CalcResult::Text("BAHTTEXT not implemented".to_owned())
    }
}

} // verus!
