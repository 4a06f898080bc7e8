use vstd::prelude::*;

use crate::text::spec_is_digit;

verus! {

broadcast use {vstd::std_specs::vec::group_vec_axioms, vstd::seq::group_seq_axioms};

/// The mathematical shape of a JSON document.  Number values carry no
/// payload: the codec validates their syntax but never reads them.
pub enum JVal {
    Null,
    Bool(bool),
    Num,
    Text(Seq<char>),
    Arr(Seq<JVal>),
    Obj(Seq<(Seq<char>, JVal)>),
}

/// A parsed JSON document.
pub enum Json {
    Null,
    Bool(bool),
    Num,
    Text(Vec<char>),
    Arr(Vec<Json>),
    Obj(Vec<(Vec<char>, Json)>),
}

/// The values of a sequence of parsed documents.
pub open spec fn jviews(vs: Seq<Json>) -> Seq<JVal>
    decreases vs,
{
    Seq::new(
        vs.len(),
        |i: int|
            if 0 <= i < vs.len() {
                vs[i].jview()
            } else {
                JVal::Null
            },
    )
}

/// The members of a sequence of parsed object members.
pub open spec fn jviews_obj(ms: Seq<(Vec<char>, Json)>) -> Seq<(Seq<char>, JVal)>
    decreases ms,
{
    Seq::new(
        ms.len(),
        |i: int|
            if 0 <= i < ms.len() {
                (ms[i].0@, ms[i].1.jview())
            } else {
                (Seq::empty(), JVal::Null)
            },
    )
}

impl Json {
    /// The value a parsed document stands for.
    pub open spec fn jview(self) -> JVal
        decreases self,
    {
        match self {
            Json::Null => JVal::Null,
            Json::Bool(b) => JVal::Bool(b),
            Json::Num => JVal::Num,
            Json::Text(v) => JVal::Text(v@),
            Json::Arr(v) => JVal::Arr(jviews(v@)),
            Json::Obj(v) => JVal::Obj(jviews_obj(v@)),
        }
    }
}

/// JSON insignificant whitespace.
pub open spec fn spec_is_ws(c: char) -> bool {
    c == ' ' || c == '\t' || c == '\n' || c == '\r'
}

/// The index of the first non-whitespace character at or after `i`.
pub open spec fn sp_ws(s: Seq<char>, i: int) -> int
    decreases s.len() - i,
{
    if 0 <= i < s.len() && spec_is_ws(s[i]) {
        sp_ws(s, i + 1)
    } else {
        i
    }
}

/// The index after the run of decimal digits starting at `i`.
pub open spec fn sp_digits(s: Seq<char>, i: int) -> int
    decreases s.len() - i,
{
    if 0 <= i < s.len() && spec_is_digit(s[i]) {
        sp_digits(s, i + 1)
    } else {
        i
    }
}

/// The value of a hexadecimal digit, or -1.
pub open spec fn spec_hex_val(c: char) -> int {
    if spec_is_digit(c) {
        c as int - 48
    } else if 97 <= c as int <= 102 {
        c as int - 87
    } else if 65 <= c as int <= 70 {
        c as int - 55
    } else {
        -1
    }
}

pub open spec fn spec_is_hex(c: char) -> bool {
    spec_hex_val(c) >= 0
}

/// The value of the four hexadecimal digits at `i`, or -1 when they are not
/// there.
pub open spec fn sp_hex4(s: Seq<char>, i: int) -> int {
    if 0 <= i && i + 4 <= s.len() && spec_is_hex(s[i]) && spec_is_hex(s[i + 1]) && spec_is_hex(
        s[i + 2],
    ) && spec_is_hex(s[i + 3]) {
        spec_hex_val(s[i]) * 4096 + spec_hex_val(s[i + 1]) * 256 + spec_hex_val(s[i + 2]) * 16
            + spec_hex_val(s[i + 3])
    } else {
        -1
    }
}

/// The unescaped character a two-character escape stands for; the escapes
/// are the eight JSON shorthands.
pub open spec fn spec_unescape(e: char) -> char {
    if e == '"' {
        '"'
    } else if e == '\\' {
        '\\'
    } else if e == '/' {
        '/'
    } else if e == 'b' {
        '\u{8}'
    } else if e == 'f' {
        '\u{c}'
    } else if e == 'n' {
        '\n'
    } else if e == 'r' {
        '\r'
    } else {
        '\t'
    }
}

pub open spec fn spec_is_short_escape(e: char) -> bool {
    e == '"' || e == '\\' || e == '/' || e == 'b' || e == 'f' || e == 'n' || e == 'r' || e == 't'
}

/// Parses a string body starting just after the opening quote: the decoded
/// characters and the index after the closing quote.  Raw control
/// characters, bad escapes, bad surrogate pairs and unterminated strings
/// all fail.
pub open spec fn sp_string_body(s: Seq<char>, i: int) -> Option<(Seq<char>, int)>
    decreases s.len() - i,
{
    if !(0 <= i < s.len()) {
        None
    } else {
        let c = s[i];
        if c == '"' {
            Some((Seq::empty(), i + 1))
        } else if c == '\\' {
            if i + 1 >= s.len() {
                None
            } else {
                let e = s[i + 1];
                if e == 'u' {
                    let h = sp_hex4(s, i + 2);
                    if h < 0 {
                        None
                    } else if 0xD800 <= h <= 0xDBFF {
                        if i + 12 <= s.len() && s[i + 6] == '\\' && s[i + 7] == 'u' {
                            let l = sp_hex4(s, i + 8);
                            if 0xDC00 <= l <= 0xDFFF {
                                let code = 0x10000 + (h - 0xD800) * 0x400 + (l - 0xDC00);
                                match sp_string_body(s, i + 12) {
                                    Some((rest, j)) => Some((seq![(code as u32) as char] + rest, j)),
                                    None => None,
                                }
                            } else {
                                None
                            }
                        } else {
                            None
                        }
                    } else if 0xDC00 <= h <= 0xDFFF {
                        None
                    } else {
                        match sp_string_body(s, i + 6) {
                            Some((rest, j)) => Some((seq![(h as u32) as char] + rest, j)),
                            None => None,
                        }
                    }
                } else if spec_is_short_escape(e) {
                    match sp_string_body(s, i + 2) {
                        Some((rest, j)) => Some((seq![spec_unescape(e)] + rest, j)),
                        None => None,
                    }
                } else {
                    None
                }
            }
        } else if (c as int) < 0x20 {
            None
        } else {
            match sp_string_body(s, i + 1) {
                Some((rest, j)) => Some((seq![c] + rest, j)),
                None => None,
            }
        }
    }
}

/// Parses a number starting at `i` (a minus sign or a digit): the index
/// after its last character, greedily taking fraction and exponent.
pub open spec fn sp_number(s: Seq<char>, i: int) -> Option<int> {
    let j = if 0 <= i < s.len() && s[i] == '-' {
        i + 1
    } else {
        i
    };
    if 0 <= j < s.len() && spec_is_digit(s[j]) {
        let k = if s[j] == '0' {
            j + 1
        } else {
            sp_digits(s, j)
        };
        let k2 = if k < s.len() && s[k] == '.' {
            if k + 1 < s.len() && spec_is_digit(s[k + 1]) {
                sp_digits(s, k + 1)
            } else {
                -1
            }
        } else {
            k
        };
        if k2 < 0 {
            None
        } else {
            let k3 = if k2 < s.len() && (s[k2] == 'e' || s[k2] == 'E') {
                let k4 = if k2 + 1 < s.len() && (s[k2 + 1] == '+' || s[k2 + 1] == '-') {
                    k2 + 2
                } else {
                    k2 + 1
                };
                if k4 < s.len() && spec_is_digit(s[k4]) {
                    sp_digits(s, k4)
                } else {
                    -1
                }
            } else {
                k2
            };
            if k3 < 0 {
                None
            } else {
                Some(k3)
            }
        }
    } else {
        None
    }
}

/// Parses one JSON value starting exactly at `i`.
pub open spec fn sp_value(s: Seq<char>, i: int) -> Option<(JVal, int)>
    decreases s.len() - i, 1int,
{
    if !(0 <= i < s.len()) {
        None
    } else {
        let c = s[i];
        if c == '"' {
            match sp_string_body(s, i + 1) {
                Some((t, j)) => Some((JVal::Text(t), j)),
                None => None,
            }
        } else if c == '[' {
            sp_array(s, i)
        } else if c == '{' {
            sp_object(s, i)
        } else if c == 't' {
            if i + 4 <= s.len() && s[i + 1] == 'r' && s[i + 2] == 'u' && s[i + 3] == 'e' {
                Some((JVal::Bool(true), i + 4))
            } else {
                None
            }
        } else if c == 'f' {
            if i + 5 <= s.len() && s[i + 1] == 'a' && s[i + 2] == 'l' && s[i + 3] == 's' && s[i + 4]
                == 'e' {
                Some((JVal::Bool(false), i + 5))
            } else {
                None
            }
        } else if c == 'n' {
            if i + 4 <= s.len() && s[i + 1] == 'u' && s[i + 2] == 'l' && s[i + 3] == 'l' {
                Some((JVal::Null, i + 4))
            } else {
                None
            }
        } else if c == '-' || spec_is_digit(c) {
            match sp_number(s, i) {
                Some(j) => Some((JVal::Num, j)),
                None => None,
            }
        } else {
            None
        }
    }
}

/// Parses an array starting at its opening bracket.
pub open spec fn sp_array(s: Seq<char>, i: int) -> Option<(JVal, int)>
    decreases s.len() - i, 0int,
{
    if !(0 <= i < s.len() && s[i] == '[') {
        None
    } else {
        let j = sp_ws(s, i + 1);
        if !(i < j <= s.len()) {
            None
        } else if j < s.len() && s[j] == ']' {
            Some((JVal::Arr(Seq::empty()), j + 1))
        } else {
            match sp_arr_items(s, j) {
                Some((items, k)) => Some((JVal::Arr(items), k)),
                None => None,
            }
        }
    }
}

/// Parses the elements of a non-empty array, starting at the first element,
/// through the closing bracket.
pub open spec fn sp_arr_items(s: Seq<char>, i: int) -> Option<(Seq<JVal>, int)>
    decreases s.len() - i, 2int,
{
    if !(0 <= i <= s.len()) {
        None
    } else {
        match sp_value(s, i) {
            None => None,
            Some((v, j)) => {
                let k = sp_ws(s, j);
                if !(i < j <= k <= s.len()) {
                    None
                } else if k < s.len() && s[k] == ']' {
                    Some((seq![v], k + 1))
                } else if k < s.len() && s[k] == ',' {
                    let l = sp_ws(s, k + 1);
                    if !(k < l <= s.len()) {
                        None
                    } else {
                        match sp_arr_items(s, l) {
                            Some((rest, m)) => Some((seq![v] + rest, m)),
                            None => None,
                        }
                    }
                } else {
                    None
                }
            },
        }
    }
}

/// Parses an object starting at its opening brace.
pub open spec fn sp_object(s: Seq<char>, i: int) -> Option<(JVal, int)>
    decreases s.len() - i, 0int,
{
    if !(0 <= i < s.len() && s[i] == '{') {
        None
    } else {
        let j = sp_ws(s, i + 1);
        if !(i < j <= s.len()) {
            None
        } else if j < s.len() && s[j] == '}' {
            Some((JVal::Obj(Seq::empty()), j + 1))
        } else {
            match sp_obj_items(s, j) {
                Some((members, k)) => Some((JVal::Obj(members), k)),
                None => None,
            }
        }
    }
}

/// Parses the members of a non-empty object, starting at the first key,
/// through the closing brace.
pub open spec fn sp_obj_items(s: Seq<char>, i: int) -> Option<(Seq<(Seq<char>, JVal)>, int)>
    decreases s.len() - i, 2int,
{
    if !(0 <= i < s.len() && s[i] == '"') {
        None
    } else {
        match sp_string_body(s, i + 1) {
            None => None,
            Some((key, j)) => {
                let k = sp_ws(s, j);
                if !(i < j <= k < s.len()) {
                    None
                } else if s[k] == ':' {
                    let l = sp_ws(s, k + 1);
                    if !(k < l <= s.len()) {
                        None
                    } else {
                        match sp_value(s, l) {
                            None => None,
                            Some((v, m)) => {
                                let n2 = sp_ws(s, m);
                                if !(l < m <= n2 <= s.len()) {
                                    None
                                } else if n2 < s.len() && s[n2] == '}' {
                                    Some((seq![(key, v)], n2 + 1))
                                } else if n2 < s.len() && s[n2] == ',' {
                                    let p = sp_ws(s, n2 + 1);
                                    if !(n2 < p <= s.len()) {
                                        None
                                    } else {
                                        match sp_obj_items(s, p) {
                                            Some((rest, q)) => Some((seq![(key, v)] + rest, q)),
                                            None => None,
                                        }
                                    }
                                } else {
                                    None
                                }
                            },
                        }
                    }
                } else {
                    None
                }
            },
        }
    }
}

/// Parses a whole text as one JSON value surrounded by whitespace.
pub open spec fn sp_json(s: Seq<char>) -> Option<JVal> {
    let i = sp_ws(s, 0);
    match sp_value(s, i) {
        None => None,
        Some((v, j)) => {
            if sp_ws(s, j) == s.len() {
                Some(v)
            } else {
                None
            }
        },
    }
}

fn is_control(c: char) -> (b: bool)
    ensures
        b == ((c as int) < 0x20),
{
    (c as u32) < 0x20
}

fn is_ws(c: char) -> (b: bool)
    ensures
        b == spec_is_ws(c),
{
    c == ' ' || c == '\t' || c == '\n' || c == '\r'
}

fn is_digit(c: char) -> (b: bool)
    ensures
        b == spec_is_digit(c),
{
    c as u32 >= 48 && c as u32 <= 57
}

fn ws(s: &Vec<char>, i: usize) -> (r: usize)
    requires
        i <= s@.len(),
    ensures
        r as int == sp_ws(s@, i as int),
        i <= r <= s@.len(),
    decreases s@.len() - i,
{
    if i < s.len() && is_ws(s[i]) {
        ws(s, i + 1)
    } else {
        i
    }
}

fn digits(s: &Vec<char>, i: usize) -> (r: usize)
    requires
        i <= s@.len(),
    ensures
        r as int == sp_digits(s@, i as int),
        i <= r <= s@.len(),
    decreases s@.len() - i,
{
    if i < s.len() && is_digit(s[i]) {
        digits(s, i + 1)
    } else {
        i
    }
}

fn hex_val(c: char) -> (r: Option<u32>)
    ensures
        r matches Some(v) ==> spec_hex_val(c) == v as int && v < 16,
        r is None ==> spec_hex_val(c) == -1,
{
    let u = c as u32;
    if 48 <= u && u <= 57 {
        Some(u - 48)
    } else if 97 <= u && u <= 102 {
        Some(u - 87)
    } else if 65 <= u && u <= 70 {
        Some(u - 55)
    } else {
        None
    }
}

fn hex4(s: &Vec<char>, i: usize) -> (r: Option<u32>)
    requires
        i <= s@.len(),
    ensures
        r matches Some(h) ==> sp_hex4(s@, i as int) == h as int && h < 0x10000,
        r is None ==> sp_hex4(s@, i as int) == -1,
{
    if s.len() - i < 4 {
        return None;
    }
    let a = hex_val(s[i]);
    let b = hex_val(s[i + 1]);
    let c = hex_val(s[i + 2]);
    let d = hex_val(s[i + 3]);
    match (a, b, c, d) {
        (Some(a), Some(b), Some(c), Some(d)) => Some(a * 4096 + b * 256 + c * 16 + d),
        _ => None,
    }
}

/// Parses one escape sequence at a backslash and the rest of the string
/// body after it, mirroring the escape arm of `sp_string_body`.
fn parse_escape(s: &Vec<char>, i: usize) -> (r: Option<(Vec<char>, usize)>)
    requires
        i < s@.len(),
        s@[i as int] == '\\',
    ensures
        (r is Some) == (sp_string_body(s@, i as int) is Some),
        r matches Some(p) ==> sp_string_body(s@, i as int) == Some((p.0@, p.1 as int)) && i < p.1
            <= s@.len(),
    decreases s@.len() - i, 0int,
{
    if s.len() - i < 2 {
        return None;
    }
    let e = s[i + 1];
    if e == 'u' {
        match hex4(s, i + 2) {
            None => None,
            Some(h) => {
                if 0xD800 <= h && h <= 0xDBFF {
                    if s.len() - i >= 12 && s[i + 6] == '\\' && s[i + 7] == 'u' {
                        match hex4(s, i + 8) {
                            None => None,
                            Some(l) => {
                                if 0xDC00 <= l && l <= 0xDFFF {
                                    let code: u32 = 0x10000 + (h - 0xD800) * 0x400 + (l - 0xDC00);
                                    match parse_string_body(s, i + 12) {
                                        None => None,
                                        Some((mut rest, j)) => {
                                            let ch = match crate::text::char_from_u32(code) {
                                                Some(ch) => ch,
                                                None => unreached(),
                                            };
                                            let mut out: Vec<char> = Vec::new();
                                            out.push(ch);
                                            out.append(&mut rest);
                                            assert(out@ =~= seq![(code as u32) as char]
                                                + sp_string_body(s@, i as int + 12)->Some_0.0);
                                            Some((out, j))
                                        },
                                    }
                                } else {
                                    None
                                }
                            },
                        }
                    } else {
                        None
                    }
                } else if 0xDC00 <= h && h <= 0xDFFF {
                    None
                } else {
                    match parse_string_body(s, i + 6) {
                        None => None,
                        Some((mut rest, j)) => {
                            let ch = match crate::text::char_from_u32(h) {
                                Some(ch) => ch,
                                None => unreached(),
                            };
                            let mut out: Vec<char> = Vec::new();
                            out.push(ch);
                            out.append(&mut rest);
                            assert(out@ =~= seq![(h as int as u32) as char] + sp_string_body(
                                s@,
                                i as int + 6,
                            )->Some_0.0);
                            Some((out, j))
                        },
                    }
                }
            },
        }
    } else if e == '"' || e == '\\' || e == '/' || e == 'b' || e == 'f' || e == 'n' || e == 'r'
        || e == 't' {
        let ch: char = if e == '"' {
            '"'
        } else if e == '\\' {
            '\\'
        } else if e == '/' {
            '/'
        } else if e == 'b' {
            '\u{8}'
        } else if e == 'f' {
            '\u{c}'
        } else if e == 'n' {
            '\n'
        } else if e == 'r' {
            '\r'
        } else {
            '\t'
        };
        match parse_string_body(s, i + 2) {
            None => None,
            Some((mut rest, j)) => {
                let mut out: Vec<char> = Vec::new();
                out.push(ch);
                out.append(&mut rest);
                assert(out@ =~= seq![spec_unescape(e)] + sp_string_body(
                    s@,
                    i as int + 2,
                )->Some_0.0);
                Some((out, j))
            },
        }
    } else {
        None
    }
}

/// Parses a string body just after its opening quote, mirroring
/// `sp_string_body` exactly.
fn parse_string_body(s: &Vec<char>, i: usize) -> (r: Option<(Vec<char>, usize)>)
    requires
        i <= s@.len(),
    ensures
        (r is Some) == (sp_string_body(s@, i as int) is Some),
        r matches Some(p) ==> sp_string_body(s@, i as int) == Some((p.0@, p.1 as int)) && i < p.1
            <= s@.len(),
    decreases s@.len() - i, 1int,
{
    if i >= s.len() {
        return None;
    }
    let c = s[i];
    if c == '"' {
        let out: Vec<char> = Vec::new();
        assert(out@ =~= Seq::<char>::empty());
        Some((out, i + 1))
    } else if c == '\\' {
        parse_escape(s, i)
    } else if is_control(c) {
        None
    } else {
        match parse_string_body(s, i + 1) {
            None => None,
            Some((mut rest, j)) => {
                let mut out: Vec<char> = Vec::new();
                out.push(c);
                out.append(&mut rest);
                assert(out@ =~= seq![c] + sp_string_body(s@, i as int + 1)->Some_0.0);
                Some((out, j))
            },
        }
    }
}

/// Parses a number, mirroring `sp_number` exactly.
fn parse_number(s: &Vec<char>, i: usize) -> (r: Option<usize>)
    requires
        i <= s@.len(),
    ensures
        r matches Some(j) ==> sp_number(s@, i as int) == Some(j as int) && i < j <= s@.len(),
        r is None ==> sp_number(s@, i as int) is None,
{
    let j = if i < s.len() && s[i] == '-' {
        i + 1
    } else {
        i
    };
    if !(j < s.len() && is_digit(s[j])) {
        return None;
    }
    let k = if s[j] == '0' {
        j + 1
    } else {
        digits(s, j)
    };
    let k2_opt: Option<usize> = if k < s.len() && s[k] == '.' {
        if k + 1 < s.len() && is_digit(s[k + 1]) {
            Some(digits(s, k + 1))
        } else {
            None
        }
    } else {
        Some(k)
    };
    match k2_opt {
        None => None,
        Some(k2) => {
            let k3_opt: Option<usize> = if k2 < s.len() && (s[k2] == 'e' || s[k2] == 'E') {
                let k4 = if k2 + 1 < s.len() && (s[k2 + 1] == '+' || s[k2 + 1] == '-') {
                    k2 + 2
                } else {
                    k2 + 1
                };
                if k4 < s.len() && is_digit(s[k4]) {
                    Some(digits(s, k4))
                } else {
                    None
                }
            } else {
                Some(k2)
            };
            match k3_opt {
                None => None,
                Some(k3) => {
                    proof {
                        lemma_number_progress(s@, i as int);
                    }
                    Some(k3)
                },
            }
        },
    }
}

/// Parses one JSON value, mirroring `sp_value` exactly.
pub fn parse_value(s: &Vec<char>, i: usize) -> (r: Option<(Json, usize)>)
    requires
        i <= s@.len(),
    ensures
        (r is Some) == (sp_value(s@, i as int) is Some),
        r matches Some(p) ==> sp_value(s@, i as int) == Some((p.0.jview(), p.1 as int)) && i < p.1
            <= s@.len(),
    decreases s@.len() - i, 1int,
{
    if i >= s.len() {
        return None;
    }
    let c = s[i];
    if c == '"' {
        match parse_string_body(s, i + 1) {
            None => None,
            Some((t, j)) => Some((Json::Text(t), j)),
        }
    } else if c == '[' {
        parse_array(s, i)
    } else if c == '{' {
        parse_object(s, i)
    } else if c == 't' {
        if s.len() - i >= 4 && s[i + 1] == 'r' && s[i + 2] == 'u' && s[i + 3] == 'e' {
            Some((Json::Bool(true), i + 4))
        } else {
            None
        }
    } else if c == 'f' {
        if s.len() - i >= 5 && s[i + 1] == 'a' && s[i + 2] == 'l' && s[i + 3] == 's' && s[i + 4]
            == 'e' {
            Some((Json::Bool(false), i + 5))
        } else {
            None
        }
    } else if c == 'n' {
        if s.len() - i >= 4 && s[i + 1] == 'u' && s[i + 2] == 'l' && s[i + 3] == 'l' {
            Some((Json::Null, i + 4))
        } else {
            None
        }
    } else if c == '-' || is_digit(c) {
        match parse_number(s, i) {
            None => None,
            Some(j) => Some((Json::Num, j)),
        }
    } else {
        None
    }
}

/// Parses an array, mirroring `sp_array` exactly.
fn parse_array(s: &Vec<char>, i: usize) -> (r: Option<(Json, usize)>)
    requires
        i <= s@.len(),
    ensures
        (r is Some) == (sp_array(s@, i as int) is Some),
        r matches Some(p) ==> sp_array(s@, i as int) == Some((p.0.jview(), p.1 as int)) && i < p.1
            <= s@.len(),
    decreases s@.len() - i, 0int,
{
    if !(i < s.len() && s[i] == '[') {
        return None;
    }
    let j = ws(s, i + 1);
    if j < s.len() && s[j] == ']' {
        let items: Vec<Json> = Vec::new();
        assert(jviews(items@) =~= Seq::<JVal>::empty());
        Some((Json::Arr(items), j + 1))
    } else {
        match parse_arr_items(s, j) {
            None => None,
            Some((items, k)) => Some((Json::Arr(items), k)),
        }
    }
}

/// Parses non-empty array elements, mirroring `sp_arr_items` exactly.
fn parse_arr_items(s: &Vec<char>, i: usize) -> (r: Option<(Vec<Json>, usize)>)
    requires
        i <= s@.len(),
    ensures
        (r is Some) == (sp_arr_items(s@, i as int) is Some),
        r matches Some(p) ==> sp_arr_items(s@, i as int) == Some((jviews(p.0@), p.1 as int)) && i
            < p.1 <= s@.len(),
    decreases s@.len() - i, 2int,
{
    match parse_value(s, i) {
        None => None,
        Some((v, j)) => {
            let k = ws(s, j);
            if k < s.len() && s[k] == ']' {
                let mut items: Vec<Json> = Vec::new();
                let ghost gv = v.jview();
                items.push(v);
                assert(jviews(items@) =~= seq![gv]);
                Some((items, k + 1))
            } else if k < s.len() && s[k] == ',' {
                let l = ws(s, k + 1);
                match parse_arr_items(s, l) {
                    None => None,
                    Some((mut rest, m)) => {
                        let ghost grest = jviews(rest@);
                        let ghost gv = v.jview();
                        let mut items: Vec<Json> = Vec::new();
                        items.push(v);
                        items.append(&mut rest);
                        assert(jviews(items@) =~= seq![gv] + grest);
                        Some((items, m))
                    },
                }
            } else {
                None
            }
        },
    }
}

/// Parses an object, mirroring `sp_object` exactly.
fn parse_object(s: &Vec<char>, i: usize) -> (r: Option<(Json, usize)>)
    requires
        i <= s@.len(),
    ensures
        (r is Some) == (sp_object(s@, i as int) is Some),
        r matches Some(p) ==> sp_object(s@, i as int) == Some((p.0.jview(), p.1 as int)) && i < p.1
            <= s@.len(),
    decreases s@.len() - i, 0int,
{
    if !(i < s.len() && s[i] == '{') {
        return None;
    }
    let j = ws(s, i + 1);
    if j < s.len() && s[j] == '}' {
        let members: Vec<(Vec<char>, Json)> = Vec::new();
        assert(jviews_obj(members@) =~= Seq::<(Seq<char>, JVal)>::empty());
        Some((Json::Obj(members), j + 1))
    } else {
        match parse_obj_items(s, j) {
            None => None,
            Some((members, k)) => Some((Json::Obj(members), k)),
        }
    }
}

/// Parses non-empty object members, mirroring `sp_obj_items` exactly.
fn parse_obj_items(s: &Vec<char>, i: usize) -> (r: Option<(Vec<(Vec<char>, Json)>, usize)>)
    requires
        i <= s@.len(),
    ensures
        (r is Some) == (sp_obj_items(s@, i as int) is Some),
        r matches Some(p) ==> sp_obj_items(s@, i as int) == Some((jviews_obj(p.0@), p.1 as int))
            && i < p.1 <= s@.len(),
    decreases s@.len() - i, 2int,
{
    if !(i < s.len() && s[i] == '"') {
        return None;
    }
    match parse_string_body(s, i + 1) {
        None => None,
        Some((key, j)) => {
            let k = ws(s, j);
            if !(k < s.len() && s[k] == ':') {
                return None;
            }
            let l = ws(s, k + 1);
            match parse_value(s, l) {
                None => None,
                Some((v, m)) => {
                    let n2 = ws(s, m);
                    if n2 < s.len() && s[n2] == '}' {
                        let ghost gk = key@;
                        let ghost gv = v.jview();
                        let mut members: Vec<(Vec<char>, Json)> = Vec::new();
                        members.push((key, v));
                        assert(jviews_obj(members@) =~= seq![(gk, gv)]);
                        Some((members, n2 + 1))
                    } else if n2 < s.len() && s[n2] == ',' {
                        let p = ws(s, n2 + 1);
                        match parse_obj_items(s, p) {
                            None => None,
                            Some((mut rest, q)) => {
                                let ghost grest = jviews_obj(rest@);
                                let ghost gk = key@;
                                let ghost gv = v.jview();
                                let mut members: Vec<(Vec<char>, Json)> = Vec::new();
                                members.push((key, v));
                                members.append(&mut rest);
                                assert(jviews_obj(members@) =~= seq![(gk, gv)] + grest);
                                Some((members, q))
                            },
                        }
                    } else {
                        None
                    }
                },
            }
        },
    }
}

/// Parses a whole text as one JSON value, mirroring `sp_json`.
pub fn parse_json(s: &Vec<char>) -> (r: Option<Json>)
    ensures
        (r is Some) == (sp_json(s@) is Some),
        r matches Some(v) ==> sp_json(s@) == Some(v.jview()),
{
    let i = ws(s, 0);
    match parse_value(s, i) {
        None => None,
        Some((v, j)) => {
            if ws(s, j) == s.len() {
                Some(v)
            } else {
                None
            }
        },
    }
}

/// The lowercase hexadecimal digit for a value below sixteen.
pub open spec fn spec_hex_char(d: int) -> char {
    if d == 10 {
        'a'
    } else if d == 11 {
        'b'
    } else if d == 12 {
        'c'
    } else if d == 13 {
        'd'
    } else if d == 14 {
        'e'
    } else if d == 15 {
        'f'
    } else {
        crate::text::spec_digit_char(d)
    }
}

/// How one character is written inside a JSON string: itself, a shorthand
/// escape, or a `\u00XX` escape for the remaining control characters.
pub open spec fn esc_char(c: char) -> Seq<char> {
    if c == '"' {
        seq!['\\', '"']
    } else if c == '\\' {
        seq!['\\', '\\']
    } else if c == '\u{8}' {
        seq!['\\', 'b']
    } else if c == '\u{c}' {
        seq!['\\', 'f']
    } else if c == '\n' {
        seq!['\\', 'n']
    } else if c == '\r' {
        seq!['\\', 'r']
    } else if c == '\t' {
        seq!['\\', 't']
    } else if (c as int) < 0x20 {
        seq!['\\', 'u', '0', '0', spec_hex_char(c as int / 16), spec_hex_char(c as int % 16)]
    } else {
        seq![c]
    }
}

/// How a whole string body is written inside a JSON string.
pub open spec fn esc_str(s: Seq<char>) -> Seq<char>
    decreases s.len(),
{
    if s.len() == 0 {
        Seq::empty()
    } else {
        esc_char(s[0]) + esc_str(s.drop_first())
    }
}

/// A JSON string literal: the escaped body between quotes.
pub open spec fn enc_text(s: Seq<char>) -> Seq<char> {
    seq!['"'] + esc_str(s) + seq!['"']
}

/// Writing one more character appends its escape.
pub proof fn lemma_esc_str_push(s: Seq<char>, c: char)
    ensures
        esc_str(s.push(c)) == esc_str(s) + esc_char(c),
    decreases s.len(),
{
    if s.len() == 0 {
        assert(s.push(c).drop_first() =~= Seq::<char>::empty());
        assert(s.push(c)[0] == c);
        assert(esc_str(s.push(c).drop_first()) == Seq::<char>::empty());
        assert(esc_str(s.push(c)) =~= esc_str(s) + esc_char(c));
    } else {
        assert(s.push(c).drop_first() =~= s.drop_first().push(c));
        lemma_esc_str_push(s.drop_first(), c);
        assert(s.push(c)[0] == s[0]);
        assert(esc_str(s.push(c)) =~= esc_str(s) + esc_char(c));
    }
}

fn hex_char(d: u32) -> (c: char)
    requires
        d < 16,
    ensures
        c == spec_hex_char(d as int),
{
    if d == 10 {
        'a'
    } else if d == 11 {
        'b'
    } else if d == 12 {
        'c'
    } else if d == 13 {
        'd'
    } else if d == 14 {
        'e'
    } else if d == 15 {
        'f'
    } else {
        crate::text::digit_char(d)
    }
}

/// Appends the escape of one character.
fn push_esc_char(out: &mut Vec<char>, c: char)
    ensures
        final(out)@ == old(out)@ + esc_char(c),
{
    if c == '"' {
        out.push('\\');
        out.push('"');
    } else if c == '\\' {
        out.push('\\');
        out.push('\\');
    } else if c == '\u{8}' {
        out.push('\\');
        out.push('b');
    } else if c == '\u{c}' {
        out.push('\\');
        out.push('f');
    } else if c == '\n' {
        out.push('\\');
        out.push('n');
    } else if c == '\r' {
        out.push('\\');
        out.push('r');
    } else if c == '\t' {
        out.push('\\');
        out.push('t');
    } else if is_control(c) {
        let u = c as u32;
        out.push('\\');
        out.push('u');
        out.push('0');
        out.push('0');
        out.push(hex_char(u / 16));
        out.push(hex_char(u % 16));
    } else {
        out.push(c);
    }
    assert(out@ =~= old(out)@ + esc_char(c));
}

/// Appends a string as a JSON string literal, quotes and escapes included.
pub fn push_json_string(out: &mut Vec<char>, s: &str)
    ensures
        final(out)@ == old(out)@ + enc_text(s@),
{
    let cs = crate::text::to_chars(s);
    let n = cs.len();
    out.push('"');
    let mut i: usize = 0;
    while i < n
        invariant
            i <= n,
            n == cs.len(),
            cs@ == s@,
            out@ == old(out)@ + seq!['"'] + esc_str(s@.take(i as int)),
        decreases n - i,
    {
        let ghost prefix = s@.take(i as int);
        push_esc_char(out, cs[i]);
        proof {
            lemma_esc_str_push(prefix, s@[i as int]);
            assert(s@.take(i + 1) =~= prefix.push(s@[i as int]));
            assert(out@ =~= old(out)@ + seq!['"'] + esc_str(s@.take(i + 1)));
        }
        i = i + 1;
    }
    out.push('"');
    proof {
        assert(s@.take(n as int) =~= s@);
        assert(out@ =~= old(out)@ + enc_text(s@));
    }
}

/// Each hexadecimal digit character reads back as its value.
proof fn lemma_hex_char_val(d: int)
    requires
        0 <= d < 16,
    ensures
        spec_hex_val(spec_hex_char(d)) == d,
{
}

/// Every character value is a Unicode scalar value; in particular its code
/// point is non-negative.
proof fn lemma_char_bounds(c: char)
    ensures
        0 <= c as int <= 0x10FFFF,
{
}

/// A production `t` stands embedded in the text at position `i`.
pub open spec fn embed(s: Seq<char>, i: int, t: Seq<char>) -> bool {
    0 <= i && i + t.len() <= s.len() && s.subrange(i, i + t.len()) == t
}

/// An embedded concatenation embeds its parts, one after the other.
pub proof fn lemma_embed_split(s: Seq<char>, i: int, t1: Seq<char>, t2: Seq<char>)
    requires
        embed(s, i, t1 + t2),
    ensures
        embed(s, i, t1),
        embed(s, i + t1.len(), t2),
{
    let t = t1 + t2;
    assert(s.subrange(i, i + t1.len()) =~= t1) by {
        assert forall|k: int| 0 <= k < t1.len() implies s.subrange(i, i + t1.len() as int)[k]
            == t1[k] by {
            assert(s.subrange(i, i + t1.len() as int)[k] == s[i + k]);
            assert(s.subrange(i, i + t.len() as int)[k] == s[i + k]);
            assert(t[k] == t1[k]);
        }
    }
    assert(s.subrange(i + t1.len(), i + t1.len() + t2.len()) =~= t2) by {
        assert forall|k: int|
            0 <= k < t2.len() implies s.subrange(
            i + t1.len() as int,
            i + t1.len() + t2.len() as int,
        )[k] == t2[k] by {
            assert(s.subrange(i + t1.len() as int, i + t1.len() + t2.len() as int)[k] == s[i
                + t1.len() + k]);
            assert(s.subrange(i, i + t.len() as int)[t1.len() + k] == s[i + t1.len() + k]);
            assert(t[t1.len() + k] == t2[k]);
        }
    }
}

/// One character of an embedded production, read off the whole text.
pub proof fn lemma_embed_index(s: Seq<char>, i: int, t: Seq<char>, k: int)
    requires
        0 <= i,
        i + t.len() <= s.len(),
        s.subrange(i, i + t.len()) == t,
        0 <= k < t.len(),
    ensures
        s[i + k] == t[k],
{
    assert(s.subrange(i, i + t.len() as int)[k] == s[i + k]);
}

/// Parsing a string body over an escaped message followed by a closing
/// quote yields the message back and stops after the quote.
#[verifier::rlimit(100)]
#[verifier::spinoff_prover]
pub proof fn lemma_parse_esc(s: Seq<char>, i: int, msg: Seq<char>)
    requires
        0 <= i,
        i + esc_str(msg).len() + 1 <= s.len(),
        s.subrange(i, i + esc_str(msg).len()) == esc_str(msg),
        s[i + esc_str(msg).len()] == '"',
    ensures
        sp_string_body(s, i) == Some((msg, i + esc_str(msg).len() + 1)),
    decreases msg.len(),
{
    let le = esc_str(msg).len() as int;
    if msg.len() == 0 {
        assert(esc_str(msg) == Seq::<char>::empty());
        assert(s[i] == '"');
        assert(msg =~= Seq::<char>::empty());
    } else {
        let c = msg[0];
        let e = esc_char(c);
        let rest = msg.drop_first();
        assert(esc_str(msg) == e + esc_str(rest));
        let lee = e.len() as int;
        let ler = esc_str(rest).len() as int;
        assert(le == lee + ler);
        lemma_embed_index(s, i, esc_str(msg), 0);
        assert((e + esc_str(rest))[0] == e[0]);
        assert(s[i] == e[0]) by {
            assert(s[i + 0] == esc_str(msg)[0]);
        }
        if lee >= 2 {
            lemma_embed_index(s, i, esc_str(msg), 1);
            assert((e + esc_str(rest))[1] == e[1]);
            assert(s[i + 1] == e[1]);
        }
        if lee >= 6 {
            lemma_embed_index(s, i, esc_str(msg), 2);
            lemma_embed_index(s, i, esc_str(msg), 3);
            lemma_embed_index(s, i, esc_str(msg), 4);
            lemma_embed_index(s, i, esc_str(msg), 5);
            assert((e + esc_str(rest))[2] == e[2]);
            assert((e + esc_str(rest))[3] == e[3]);
            assert((e + esc_str(rest))[4] == e[4]);
            assert((e + esc_str(rest))[5] == e[5]);
            assert(s[i + 2] == e[2]);
            assert(s[i + 3] == e[3]);
            assert(s[i + 4] == e[4]);
            assert(s[i + 5] == e[5]);
        }
        let i2 = i + lee;
        assert(s.subrange(i2, i2 + ler) =~= esc_str(rest)) by {
            assert forall|k: int| 0 <= k < ler implies s.subrange(i2, i2 + ler)[k] == esc_str(
                rest,
            )[k] by {
                assert(s.subrange(i2, i2 + ler)[k] == s[i2 + k]);
                lemma_embed_index(s, i, esc_str(msg), lee + k);
                assert((e + esc_str(rest))[lee + k] == esc_str(rest)[k]);
            }
        }
        assert(s[i2 + ler] == '"');
        lemma_parse_esc(s, i2, rest);
        assert(sp_string_body(s, i2) == Some((rest, i2 + ler + 1)));
        if c == '"' || c == '\\' || c == '\u{8}' || c == '\u{c}' || c == '\n' || c == '\r' || c
            == '\t' {
            assert(e[0] == '\\' && lee == 2);
            assert(s[i] == '\\');
            assert(s[i + 1] == e[1]);
            assert(s[i + 1] != 'u');
            assert(spec_is_short_escape(s[i + 1]));
            assert(spec_unescape(s[i + 1]) == c);
            assert(sp_string_body(s, i) == Some((seq![c] + rest, i2 + ler + 1)));
            assert(seq![c] + rest =~= msg);
        } else if (c as int) < 0x20 {
            assert(lee == 6);
            assert(s[i] == '\\' && s[i + 1] == 'u');
            assert(s[i + 2] == '0' && s[i + 3] == '0');
            assert(s[i + 4] == spec_hex_char(c as int / 16));
            assert(s[i + 5] == spec_hex_char(c as int % 16));
            lemma_char_bounds(c);
            lemma_hex_char_val(c as int / 16);
            lemma_hex_char_val(c as int % 16);
            assert(spec_hex_val('0') == 0);
            let h = sp_hex4(s, i + 2);
            assert(h == spec_hex_val(s[i + 2]) * 4096 + spec_hex_val(s[i + 3]) * 256 + spec_hex_val(
                s[i + 4],
            ) * 16 + spec_hex_val(s[i + 5]));
            assert(h == (c as int / 16) * 16 + (c as int % 16));
            assert(h == c as int);
            assert(0 <= h < 0x20);
            vstd::utf8::char_u32_cast(c, c as u32);
            assert((h as u32) as char == c);
            assert(sp_string_body(s, i) == Some((seq![c] + rest, i2 + ler + 1)));
            assert(seq![c] + rest =~= msg);
        } else {
            assert(e == seq![c] && lee == 1);
            assert(s[i] == c);
            assert(c != '"' && c != '\\' && (c as int) >= 0x20);
            assert(sp_string_body(s, i) == Some((seq![c] + rest, i2 + ler + 1)));
            assert(seq![c] + rest =~= msg);
        }
    }
}

/// A digit run stays inside the text and moves only forward.
pub proof fn lemma_digits_bounds(s: Seq<char>, i: int)
    requires
        0 <= i <= s.len(),
    ensures
        i <= sp_digits(s, i) <= s.len(),
    decreases s.len() - i,
{
    if i < s.len() && spec_is_digit(s[i]) {
        lemma_digits_bounds(s, i + 1);
    }
}

/// A parsed string body ends after where it began and inside the text.
pub proof fn lemma_string_body_progress(s: Seq<char>, i: int)
    requires
        sp_string_body(s, i) is Some,
    ensures
        i < sp_string_body(s, i)->Some_0.1 <= s.len(),
    decreases s.len() - i,
{
    let c = s[i];
    if c == '"' {
    } else if c == '\\' {
        let e = s[i + 1];
        if e == 'u' {
            let h = sp_hex4(s, i + 2);
            if 0xD800 <= h <= 0xDBFF {
                lemma_string_body_progress(s, i + 12);
            } else {
                lemma_string_body_progress(s, i + 6);
            }
        } else {
            lemma_string_body_progress(s, i + 2);
        }
    } else {
        lemma_string_body_progress(s, i + 1);
    }
}

/// A parsed number ends after where it began and inside the text.
pub proof fn lemma_number_progress(s: Seq<char>, i: int)
    requires
        0 <= i,
        sp_number(s, i) is Some,
    ensures
        i < sp_number(s, i)->Some_0 <= s.len(),
{
    let j = if 0 <= i < s.len() && s[i] == '-' {
        i + 1
    } else {
        i
    };
    lemma_digits_bounds(s, j);
    if s[j] != '0' {
        assert(sp_digits(s, j) == sp_digits(s, j + 1)) by {
            assert(spec_is_digit(s[j]));
        }
        lemma_digits_bounds(s, j + 1);
    }
    let k = if s[j] == '0' {
        j + 1
    } else {
        sp_digits(s, j)
    };
    if k < s.len() && s[k] == '.' {
        lemma_digits_bounds(s, k + 1);
        assert(sp_digits(s, k + 1) == sp_digits(s, k + 2)) by {
            assert(spec_is_digit(s[k + 1]));
        }
        lemma_digits_bounds(s, k + 2);
    }
    let k2 = if k < s.len() && s[k] == '.' {
        if k + 1 < s.len() && spec_is_digit(s[k + 1]) {
            sp_digits(s, k + 1)
        } else {
            -1
        }
    } else {
        k
    };
    if k2 >= 0 && k2 < s.len() && (s[k2] == 'e' || s[k2] == 'E') {
        let k4 = if k2 + 1 < s.len() && (s[k2 + 1] == '+' || s[k2 + 1] == '-') {
            k2 + 2
        } else {
            k2 + 1
        };
        if k4 < s.len() && spec_is_digit(s[k4]) {
            lemma_digits_bounds(s, k4);
            assert(sp_digits(s, k4) == sp_digits(s, k4 + 1));
            lemma_digits_bounds(s, k4 + 1);
        }
    }
}

/// A parsed value ends after where it began and inside the text.
pub proof fn lemma_value_progress(s: Seq<char>, i: int)
    requires
        sp_value(s, i) is Some,
    ensures
        i < sp_value(s, i)->Some_0.1 <= s.len(),
    decreases s.len() - i, 1int,
{
    let c = s[i];
    if c == '"' {
        lemma_string_body_progress(s, i + 1);
    } else if c == '[' {
        lemma_array_progress(s, i);
    } else if c == '{' {
        lemma_object_progress(s, i);
    } else if c == 't' || c == 'f' || c == 'n' {
    } else {
        lemma_number_progress(s, i);
    }
}

/// A parsed array ends after where it began and inside the text.
pub proof fn lemma_array_progress(s: Seq<char>, i: int)
    requires
        sp_array(s, i) is Some,
    ensures
        i < sp_array(s, i)->Some_0.1 <= s.len(),
    decreases s.len() - i, 0int,
{
    let j = sp_ws(s, i + 1);
    if j < s.len() && s[j] == ']' {
    } else {
        lemma_arr_items_progress(s, j);
    }
}

/// Parsed array elements end after where they began and inside the text.
pub proof fn lemma_arr_items_progress(s: Seq<char>, i: int)
    requires
        sp_arr_items(s, i) is Some,
    ensures
        i < sp_arr_items(s, i)->Some_0.1 <= s.len(),
    decreases s.len() - i, 2int,
{
    let (v, j) = sp_value(s, i)->Some_0;
    lemma_value_progress(s, i);
    let k = sp_ws(s, j);
    if k < s.len() && s[k] == ']' {
    } else {
        let l = sp_ws(s, k + 1);
        lemma_arr_items_progress(s, l);
    }
}

/// A parsed object ends after where it began and inside the text.
pub proof fn lemma_object_progress(s: Seq<char>, i: int)
    requires
        sp_object(s, i) is Some,
    ensures
        i < sp_object(s, i)->Some_0.1 <= s.len(),
    decreases s.len() - i, 0int,
{
    let j = sp_ws(s, i + 1);
    if j < s.len() && s[j] == '}' {
    } else {
        lemma_obj_items_progress(s, j);
    }
}

/// A parsed value never starts at whitespace or at the end of the text.
pub proof fn lemma_value_start(s: Seq<char>, i: int)
    requires
        sp_value(s, i) is Some,
    ensures
        0 <= i < s.len(),
        !spec_is_ws(s[i]),
{
}

/// A single value followed by the closing bracket parses as a one-element
/// tail of an array.
pub proof fn lemma_arr_items_last(s: Seq<char>, i: int, vm: JVal, m: int)
    requires
        sp_value(s, i) == Some((vm, m)),
        m < s.len(),
        s[m] == ']',
    ensures
        sp_arr_items(s, i) == Some((seq![vm], m + 1)),
{
    lemma_value_progress(s, i);
    lemma_value_start(s, i);
    assert(sp_ws(s, m) == m);
}

/// A value, a comma and further elements parse as a longer tail of an
/// array.
pub proof fn lemma_arr_items_cons(s: Seq<char>, i: int, vm: JVal, m: int, rest: Seq<JVal>, q: int)
    requires
        sp_value(s, i) == Some((vm, m)),
        m < s.len(),
        s[m] == ',',
        sp_arr_items(s, m + 1) == Some((rest, q)),
    ensures
        sp_arr_items(s, i) == Some((seq![vm] + rest, q)),
{
    lemma_value_progress(s, i);
    lemma_value_start(s, i);
    assert(sp_ws(s, m) == m);
    assert(sp_value(s, m + 1) is Some);
    lemma_value_start(s, m + 1);
    assert(sp_ws(s, m + 1) == m + 1);
    lemma_arr_items_progress(s, m + 1);
}

/// The last member of an object, followed by the closing brace.
pub proof fn lemma_obj_items_last(s: Seq<char>, i: int, key: Seq<char>, j: int, vm: JVal, m: int)
    requires
        0 <= i < s.len(),
        s[i] == '"',
        sp_string_body(s, i + 1) == Some((key, j)),
        j < s.len(),
        s[j] == ':',
        sp_value(s, j + 1) == Some((vm, m)),
        m < s.len(),
        s[m] == '}',
    ensures
        sp_obj_items(s, i) == Some((seq![(key, vm)], m + 1)),
{
    lemma_string_body_progress(s, i + 1);
    assert(sp_ws(s, j) == j);
    lemma_value_start(s, j + 1);
    assert(sp_ws(s, j + 1) == j + 1);
    lemma_value_progress(s, j + 1);
    assert(sp_ws(s, m) == m);
}

/// A member, a comma and further members parse as a longer member list.
pub proof fn lemma_obj_items_cons(
    s: Seq<char>,
    i: int,
    key: Seq<char>,
    j: int,
    vm: JVal,
    m: int,
    rest: Seq<(Seq<char>, JVal)>,
    q: int,
)
    requires
        0 <= i < s.len(),
        s[i] == '"',
        sp_string_body(s, i + 1) == Some((key, j)),
        j < s.len(),
        s[j] == ':',
        sp_value(s, j + 1) == Some((vm, m)),
        m < s.len(),
        s[m] == ',',
        sp_obj_items(s, m + 1) == Some((rest, q)),
    ensures
        sp_obj_items(s, i) == Some((seq![(key, vm)] + rest, q)),
{
    lemma_string_body_progress(s, i + 1);
    assert(sp_ws(s, j) == j);
    lemma_value_start(s, j + 1);
    assert(sp_ws(s, j + 1) == j + 1);
    lemma_value_progress(s, j + 1);
    assert(sp_ws(s, m) == m);
    assert(m + 1 < s.len() && s[m + 1] == '"');
    assert(sp_ws(s, m + 1) == m + 1);
    lemma_obj_items_progress(s, m + 1);
}

/// Parsed object members end after where they began and inside the text.
pub proof fn lemma_obj_items_progress(s: Seq<char>, i: int)
    requires
        sp_obj_items(s, i) is Some,
    ensures
        i < sp_obj_items(s, i)->Some_0.1 <= s.len(),
    decreases s.len() - i, 2int,
{
    let (key, j) = sp_string_body(s, i + 1)->Some_0;
    lemma_string_body_progress(s, i + 1);
    let k = sp_ws(s, j);
    let l = sp_ws(s, k + 1);
    let (v, m) = sp_value(s, l)->Some_0;
    lemma_value_progress(s, l);
    let n2 = sp_ws(s, m);
    if n2 < s.len() && s[n2] == '}' {
    } else {
        let p = sp_ws(s, n2 + 1);
        lemma_obj_items_progress(s, p);
    }
}

} // verus!
