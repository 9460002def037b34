//! A small JSON reader for the snapshot record format: one value per input
//! line, with objects, arrays, strings, booleans, null, and decimal numbers
//! carried in milli-units (one thousand times the written value, fractional
//! digits beyond the third truncated). Exponent notation and `\u` escapes
//! are not accepted, and arrays and objects may nest at most 128 levels
//! deep; a line past those bounds is skipped as malformed rather than
//! risking unbounded recursion on a hostile line. The reader is specified
//! exactly: `line_value` says which value (if any) a line holds, and every
//! executable function returns precisely what its spec ascribes.

use vstd::prelude::*;

verus! {

/// One parsed JSON value. Numbers hold milli-units.
#[derive(Debug, PartialEq)]
pub enum Json {
    Null,
    Bool(bool),
    Num(i64),
    Str(String),
    Arr(Vec<Json>),
    Obj(Vec<(String, Json)>),
}

/// The mathematical form of a parsed JSON value.
pub ghost enum JsonV {
    Null,
    Bool(bool),
    Num(i64),
    Str(Seq<char>),
    Arr(Seq<JsonV>),
    Obj(Seq<(Seq<char>, JsonV)>),
}

/// The mathematical view of a parsed value.
pub open spec fn json_view(j: Json) -> JsonV
    decreases j,
{
    match j {
        Json::Null => JsonV::Null,
        Json::Bool(b) => JsonV::Bool(b),
        Json::Num(v) => JsonV::Num(v),
        Json::Str(s) => JsonV::Str(s@),
        Json::Arr(items) => JsonV::Arr(arr_view(items@)),
        Json::Obj(ms) => JsonV::Obj(obj_view(ms@)),
    }
}

/// The views of an array's elements.
pub open spec fn arr_view(items: Seq<Json>) -> Seq<JsonV>
    decreases items,
{
    if items.len() == 0 {
        Seq::<JsonV>::empty()
    } else {
        arr_view(items.drop_last()).push(json_view(items.last()))
    }
}

/// The views of an object's members.
pub open spec fn obj_view(ms: Seq<(String, Json)>) -> Seq<(Seq<char>, JsonV)>
    decreases ms,
{
    if ms.len() == 0 {
        Seq::<(Seq<char>, JsonV)>::empty()
    } else {
        obj_view(ms.drop_last()).push((ms.last().0@, json_view(ms.last().1)))
    }
}

pub proof fn lemma_arr_view(items: Seq<Json>)
    ensures
        arr_view(items).len() == items.len(),
        forall|i: int| 0 <= i < items.len() ==> arr_view(items)[i] == json_view(items[i]),
    decreases items,
{
    if items.len() > 0 {
        lemma_arr_view(items.drop_last());
    }
}

pub proof fn lemma_obj_view(ms: Seq<(String, Json)>)
    ensures
        obj_view(ms).len() == ms.len(),
        forall|i: int|
            0 <= i < ms.len() ==> obj_view(ms)[i] == (ms[i].0@, json_view(ms[i].1)),
    decreases ms,
{
    if ms.len() > 0 {
        lemma_obj_view(ms.drop_last());
    }
}

/// The first position at or after `j` holding no blank, tab, carriage
/// return or newline.
pub open spec fn ws_end(s: Seq<char>, j: int) -> int
    decreases s.len() - j,
{
    if 0 <= j < s.len() && (s[j] == ' ' || s[j] == '\t' || s[j] == '\r' || s[j] == '\n') {
        ws_end(s, j + 1)
    } else {
        j
    }
}

/// A position step clamped to stay strictly past `lo` and inside the text;
/// the clamps never bite on the positions the grammar actually produces.
pub open spec fn clamp_pos(s: Seq<char>, lo: int, e: int) -> int {
    let x = if e < lo {
        lo
    } else {
        e
    };
    if x > s.len() {
        s.len() as int
    } else {
        x
    }
}

/// What a string escape character denotes, if anything.
pub open spec fn unescape(c: char) -> Option<char> {
    if c == '"' {
        Some('"')
    } else if c == '\\' {
        Some('\\')
    } else if c == '/' {
        Some('/')
    } else if c == 'n' {
        Some('\n')
    } else if c == 't' {
        Some('\t')
    } else if c == 'r' {
        Some('\r')
    } else if c == 'b' {
        Some('\u{0008}')
    } else if c == 'f' {
        Some('\u{000C}')
    } else {
        None
    }
}

/// The chars of a quoted string's body from `j` (just past the opening
/// quote), with the position past the closing quote.
pub open spec fn string_body(s: Seq<char>, j: int) -> Option<(Seq<char>, int)>
    decreases s.len() - j,
{
    if !(0 <= j < s.len()) {
        None
    } else if s[j] == '"' {
        Some((Seq::<char>::empty(), j + 1))
    } else if s[j] == '\\' {
        if j + 2 > s.len() {
            None
        } else {
            match unescape(s[j + 1]) {
                None => None,
                Some(c) => match string_body(s, j + 2) {
                    None => None,
                    Some((t, e)) => Some((seq![c] + t, e)),
                },
            }
        }
    } else if (s[j] as u32) < 0x20 {
        None
    } else {
        match string_body(s, j + 1) {
            None => None,
            Some((t, e)) => Some((seq![s[j]] + t, e)),
        }
    }
}

/// The string starting at an opening quote at `i`.
pub open spec fn string_at(s: Seq<char>, i: int) -> Option<(Seq<char>, int)> {
    if 0 <= i < s.len() && s[i] == '"' {
        string_body(s, i + 1)
    } else {
        None
    }
}

/// The exact word `w` stands at `j`.
pub open spec fn word_at(s: Seq<char>, j: int, w: Seq<char>) -> bool {
    0 <= j && j + w.len() <= s.len() && s.subrange(j, j + w.len() as int) == w
}

/// How many levels of arrays and objects a line may nest.
pub open spec fn spec_depth_limit() -> nat {
    128
}

/// The JSON value standing at `i` (no leading blanks), with the position
/// just past it. `depth` is the remaining nesting budget: a value nested
/// deeper than the budget has no reading and its line is malformed.
pub open spec fn value_at(s: Seq<char>, i: int, depth: nat) -> Option<(JsonV, int)>
    decreases depth, s.len() - i, 0int,
{
    if !(0 <= i < s.len()) {
        None
    } else {
        let c = s[i];
        if c == '"' {
            match string_at(s, i) {
                Some((t, e)) => Some((JsonV::Str(t), e)),
                None => None,
            }
        } else if c == '{' {
            if depth == 0 {
                None
            } else {
                match object_tail(s, ws_end(s, i + 1), (depth - 1) as nat) {
                    Some((ms, e)) => Some((JsonV::Obj(ms), e)),
                    None => None,
                }
            }
        } else if c == '[' {
            if depth == 0 {
                None
            } else {
                match array_tail(s, ws_end(s, i + 1), (depth - 1) as nat) {
                    Some((vs, e)) => Some((JsonV::Arr(vs), e)),
                    None => None,
                }
            }
        } else if c == 't' {
            if word_at(s, i, "true"@) {
                Some((JsonV::Bool(true), i + 4))
            } else {
                None
            }
        } else if c == 'f' {
            if word_at(s, i, "false"@) {
                Some((JsonV::Bool(false), i + 5))
            } else {
                None
            }
        } else if c == 'n' {
            if word_at(s, i, "null"@) {
                Some((JsonV::Null, i + 4))
            } else {
                None
            }
        } else if c == '-' || is_digit_spec(c) {
            match number_at(s, i) {
                Some((v, e)) => Some((JsonV::Num(v), e)),
                None => None,
            }
        } else {
            None
        }
    }
}

/// An array's content from the first non-blank position after `[`.
pub open spec fn array_tail(s: Seq<char>, j: int, depth: nat) -> Option<(Seq<JsonV>, int)>
    decreases depth, s.len() - j, 2int,
{
    if 0 <= j < s.len() && s[j] == ']' {
        Some((Seq::<JsonV>::empty(), j + 1))
    } else {
        elems_at(s, j, depth)
    }
}

/// A comma-separated run of values ending at `]`, starting at `j`.
pub open spec fn elems_at(s: Seq<char>, j: int, depth: nat) -> Option<(Seq<JsonV>, int)>
    decreases depth, s.len() - j, 1int,
{
    if !(0 <= j < s.len()) {
        None
    } else {
        match value_at(s, j, depth) {
            None => None,
            Some((v, e0)) => {
                let e = clamp_pos(s, j + 1, e0);
                let j3 = clamp_pos(s, e, ws_end(s, e));
                if j3 < s.len() && s[j3] == ',' {
                    let j4 = clamp_pos(s, j3 + 1, ws_end(s, j3 + 1));
                    match elems_at(s, j4, depth) {
                        None => None,
                        Some((rest, e2)) => Some((seq![v] + rest, e2)),
                    }
                } else if j3 < s.len() && s[j3] == ']' {
                    Some((seq![v], j3 + 1))
                } else {
                    None
                }
            },
        }
    }
}

/// An object's content from the first non-blank position after `{`.
pub open spec fn object_tail(s: Seq<char>, j: int, depth: nat) -> Option<
    (Seq<(Seq<char>, JsonV)>, int),
>
    decreases depth, s.len() - j, 2int,
{
    if 0 <= j < s.len() && s[j] == '}' {
        Some((Seq::<(Seq<char>, JsonV)>::empty(), j + 1))
    } else {
        members_at(s, j, depth)
    }
}

/// A comma-separated run of `key: value` members ending at `}`.
pub open spec fn members_at(s: Seq<char>, j: int, depth: nat) -> Option<
    (Seq<(Seq<char>, JsonV)>, int),
>
    decreases depth, s.len() - j, 1int,
{
    if !(0 <= j < s.len()) {
        None
    } else {
        match string_at(s, j) {
            None => None,
            Some((key, e0)) => {
                let e = clamp_pos(s, j + 1, e0);
                let j3 = clamp_pos(s, e, ws_end(s, e));
                if j3 < s.len() && s[j3] == ':' {
                    let j4 = clamp_pos(s, j3 + 1, ws_end(s, j3 + 1));
                    match value_at(s, j4, depth) {
                        None => None,
                        Some((v, f0)) => {
                            let f = clamp_pos(s, j4 + 1, f0);
                            let j6 = clamp_pos(s, f, ws_end(s, f));
                            if j6 < s.len() && s[j6] == ',' {
                                let j7 = clamp_pos(s, j6 + 1, ws_end(s, j6 + 1));
                                match members_at(s, j7, depth) {
                                    None => None,
                                    Some((rest, e2)) => Some((seq![(key, v)] + rest, e2)),
                                }
                            } else if j6 < s.len() && s[j6] == '}' {
                                Some((seq![(key, v)], j6 + 1))
                            } else {
                                None
                            }
                        },
                    }
                } else {
                    None
                }
            },
        }
    }
}

/// The single JSON value a line holds, with nothing but blanks around it.
pub open spec fn line_value(s: Seq<char>) -> Option<JsonV> {
    match value_at(s, ws_end(s, 0), spec_depth_limit()) {
        None => None,
        Some((v, e)) => if ws_end(s, e) == s.len() {
            Some(v)
        } else {
            None
        },
    }
}

/// Relies on `String`'s `FromIterator<char>`: collecting chars yields the
/// string of exactly those chars, in order.
#[verifier::external_body]
fn chars_to_string(cs: &Vec<char>) -> (r: String)
    ensures
        r@ == cs@,
{
    cs.iter().collect()
}

/// Whether `c` is a decimal digit.
pub open spec fn is_digit_spec(c: char) -> bool {
    0x30 <= c as u32 <= 0x39
}

/// Tests for a decimal digit.
fn is_digit(c: char) -> (r: bool)
    ensures
        r == is_digit_spec(c),
{
    let u = c as u32;
    0x30 <= u && u <= 0x39
}

/// The first position at or after `j` holding no digit.
pub open spec fn digits_end(s: Seq<char>, j: int) -> int
    decreases s.len() - j,
{
    if j < s.len() && is_digit_spec(s[j]) {
        digits_end(s, j + 1)
    } else {
        j
    }
}

/// The plain value of the digit run `s[a..b)`.
pub open spec fn digits_val(s: Seq<char>, a: int, b: int) -> int
    decreases b - a,
{
    if b <= a {
        0
    } else {
        digits_val(s, a, b - 1) * 10 + (s[b - 1] as u32 - 0x30)
    }
}

pub open spec fn pow10(k: nat) -> int
    decreases k,
{
    if k == 0 {
        1
    } else {
        10 * pow10((k - 1) as nat)
    }
}

/// The magnitude bound at which the whole part stops growing.
pub open spec fn milli_cap() -> int {
    9_223_372_036_854_774
}

/// The whole-part value of `s[a..b)` as the reader accumulates it,
/// saturating at the cap once the next step could pass it.
pub open spec fn sat_digits_val(s: Seq<char>, a: int, b: int) -> int
    decreases b - a,
{
    if b <= a {
        0
    } else {
        let prev = sat_digits_val(s, a, b - 1);
        if prev > (milli_cap() - 9) / 10 {
            milli_cap()
        } else {
            let v = prev * 10 + (s[b - 1] as u32 - 0x30);
            if v > milli_cap() {
                milli_cap()
            } else {
                v
            }
        }
    }
}

/// The milli-unit contribution of the fraction digits `s[a..b)`: the first
/// three digits, padded to three.
pub open spec fn frac_milli(s: Seq<char>, a: int, b: int) -> int {
    let m = if b - a >= 3 {
        3int
    } else {
        b - a
    };
    digits_val(s, a, a + m) * pow10((3 - m) as nat)
}

/// The number starting at `i`, in milli-units, with the position just past
/// it: optional minus, a digit run, an optional fraction; exponent
/// notation has no reading here.
pub open spec fn number_at(s: Seq<char>, i: int) -> Option<(i64, int)> {
    let neg = s[i] == '-';
    let j0 = if neg {
        i + 1
    } else {
        i
    };
    if !(j0 < s.len() && is_digit_spec(s[j0])) {
        None
    } else {
        let we = digits_end(s, j0);
        let whole = sat_digits_val(s, j0, we);
        let fr: Option<(int, int)> = if we < s.len() && s[we] == '.' {
            if we + 1 < s.len() && is_digit_spec(s[we + 1]) {
                Some((frac_milli(s, we + 1, digits_end(s, we + 1)), digits_end(s, we + 1)))
            } else {
                None
            }
        } else {
            Some((0int, we))
        };
        match fr {
            None => None,
            Some((frac, end)) => {
                if end < s.len() && (s[end] == 'e' || s[end] == 'E') {
                    None
                } else {
                    let mag = whole * 1000 + frac;
                    Some(((if neg {
                        -mag
                    } else {
                        mag
                    }) as i64, end))
                }
            },
        }
    }
}

/// Skips blanks, tabs, carriage returns and newlines.
fn skip_ws(cs: &Vec<char>, i: usize) -> (r: usize)
    requires
        i <= cs@.len(),
    ensures
        i <= r <= cs@.len(),
        r as int == ws_end(cs@, i as int),
{
    let n = cs.len();
    let mut j = i;
    while j < n && (cs[j] == ' ' || cs[j] == '\t' || cs[j] == '\r' || cs[j] == '\n')
        invariant
            i <= j <= n,
            n == cs@.len(),
            ws_end(cs@, i as int) == ws_end(cs@, j as int),
        decreases n - j,
    {
        j = j + 1;
    }
    j
}

/// Resolves one escape character, exactly as `unescape` reads it.
fn unescape_exec(e: char) -> (r: Option<char>)
    ensures
        r == unescape(e),
{
    if e == '"' {
        Some('"')
    } else if e == '\\' {
        Some('\\')
    } else if e == '/' {
        Some('/')
    } else if e == 'n' {
        Some('\n')
    } else if e == 't' {
        Some('\t')
    } else if e == 'r' {
        Some('\r')
    } else if e == 'b' {
        Some('\u{0008}')
    } else if e == 'f' {
        Some('\u{000C}')
    } else {
        None
    }
}

/// Reads a quoted string starting at the opening quote — exactly the chars
/// and end position `string_at` ascribes to it.
fn parse_string_raw(cs: &Vec<char>, i: usize) -> (r: Option<(String, usize)>)
    requires
        i < cs@.len(),
    ensures
        r matches Some(p) ==> i < p.1 <= cs@.len(),
        r is Some <==> string_at(cs@, i as int) is Some,
        r matches Some(p) ==> string_at(cs@, i as int) matches Some(q) && p.0@ == q.0 && p.1 as int
            == q.1,
{
    let n = cs.len();
    if cs[i] != '"' {
        return None;
    }
    let mut buf: Vec<char> = Vec::new();
    let mut j = i + 1;
    while j < n
        invariant
            i < j <= n,
            n == cs@.len(),
            cs@[i as int] == '"',
            match string_body(cs@, j as int) {
                Some((t, e)) => string_body(cs@, i + 1) == Some((buf@ + t, e)),
                None => string_body(cs@, i + 1) is None,
            },
        decreases n - j,
    {
        let c = cs[j];
        if c == '"' {
            proof {
                assert(string_body(cs@, j as int) == Some((Seq::<char>::empty(), j + 1)));
                assert(buf@ + Seq::<char>::empty() =~= buf@);
            }
            return Some((chars_to_string(&buf), j + 1));
        } else if c == '\\' {
            if j + 1 >= n {
                return None;
            }
            match unescape_exec(cs[j + 1]) {
                Some(u) => {
                    let ghost old_buf = buf@;
                    buf.push(u);
                    proof {
                        match string_body(cs@, j + 2) {
                            Some((t, e)) => {
                                assert(old_buf + (seq![u] + t) =~= buf@ + t);
                            },
                            None => (),
                        }
                    }
                    j = j + 2;
                },
                None => {
                    return None;
                },
            }
        } else if (c as u32) < 0x20 {
            return None;
        } else {
            let ghost old_buf = buf@;
            buf.push(c);
            proof {
                match string_body(cs@, j + 1) {
                    Some((t, e)) => {
                        assert(old_buf + (seq![c] + t) =~= buf@ + t);
                    },
                    None => (),
                }
            }
            j = j + 1;
        }
    }
    None
}

/// Reads a decimal number into milli-units, truncating past the third
/// fractional digit and saturating at the representable magnitude —
/// exactly the value `number_at` ascribes to this position.
fn parse_number(cs: &Vec<char>, i: usize) -> (r: Option<(i64, usize)>)
    requires
        i < cs@.len(),
    ensures
        r matches Some(p) ==> i < p.1 <= cs@.len(),
        r is Some <==> number_at(cs@, i as int) is Some,
        r matches Some(p) ==> number_at(cs@, i as int) matches Some(q) && p.0 == q.0 && p.1 as int
            == q.1,
{
    let n = cs.len();
    let mut j = i;
    let mut neg = false;
    if cs[j] == '-' {
        neg = true;
        j = j + 1;
    }
    let ghost j0 = j as int;
    if j >= n || !is_digit(cs[j]) {
        return None;
    }
    let cap: i64 = 9_223_372_036_854_774;
    let d0 = (cs[j] as u32) - 0x30;
    let mut whole: i64 = d0 as i64;
    proof {
        reveal_with_fuel(sat_digits_val, 2);
        assert(sat_digits_val(cs@, j0, j0 + 1) == d0);
        assert(digits_end(cs@, j0) == digits_end(cs@, j0 + 1));
    }
    j = j + 1;
    while j < n && is_digit(cs[j])
        invariant
            i < j <= n,
            i as int <= j0 < j,
            n == cs@.len(),
            0 <= whole <= cap,
            cap == milli_cap(),
            whole == sat_digits_val(cs@, j0, j as int),
            digits_end(cs@, j0) == digits_end(cs@, j as int),
        decreases n - j,
    {
        let d = (cs[j] as u32) - 0x30;
        if whole > (cap - 9) / 10 {
            whole = cap;
        } else {
            whole = whole * 10 + (d as i64);
            if whole > cap {
                whole = cap;
            }
        }
        proof {
            assert(digits_end(cs@, j as int) == digits_end(cs@, j + 1));
        }
        j = j + 1;
    }
    proof {
        assert(digits_end(cs@, j as int) == j as int);
        assert(j as int == digits_end(cs@, j0));
    }
    let ghost we = j as int;
    let mut frac: i64 = 0;
    let ghost fstart = 0int;
    if j < n && cs[j] == '.' {
        if j + 1 >= n || !is_digit(cs[j + 1]) {
            return None;
        }
        j = j + 1;
        proof {
            fstart = j as int;
        }
        let mut k: u32 = 0;
        while j < n && is_digit(cs[j])
            invariant
                i < j <= n,
                n == cs@.len(),
                fstart <= j,
                k <= 3,
                k == if j - fstart >= 3 {
                    3int
                } else {
                    j - fstart
                },
                0 <= frac,
                frac == digits_val(cs@, fstart, fstart + k),
                k == 0 ==> frac == 0,
                k == 1 ==> frac <= 9,
                k == 2 ==> frac <= 99,
                k == 3 ==> frac <= 999,
                digits_end(cs@, fstart) == digits_end(cs@, j as int),
            decreases n - j,
        {
            let d = (cs[j] as u32) - 0x30;
            if k < 3 {
                proof {
                    assert(fstart + (k + 1) == j + 1);
                }
                frac = frac * 10 + (d as i64);
                k = k + 1;
            }
            proof {
                assert(digits_end(cs@, j as int) == digits_end(cs@, j + 1));
            }
            j = j + 1;
        }
        proof {
            assert(digits_end(cs@, j as int) == j as int);
            assert(j as int == digits_end(cs@, fstart));
        }
        let ghost k0 = k as int;
        let ghost fe = j as int;
        let ghost dv = digits_val(cs@, fstart, fstart + k0);
        proof {
            assert(pow10(0) == 1);
            assert(frac == dv);
            assert((k - k0) as nat == 0);
            assert(frac == dv * pow10((k - k0) as nat));
        }
        while k < 3
            invariant
                k0 <= k <= 3,
                0 <= frac,
                k == 0 ==> frac == 0,
                k == 1 ==> frac <= 9,
                k == 2 ==> frac <= 99,
                k == 3 ==> frac <= 999,
                dv == digits_val(cs@, fstart, fstart + k0),
                frac == dv * pow10((k - k0) as nat),
            decreases 3 - k,
        {
            proof {
                assert(pow10(((k + 1) - k0) as nat) == 10 * pow10((k - k0) as nat));
                assert(frac * 10 == dv * pow10(((k + 1) - k0) as nat)) by (nonlinear_arith)
                    requires
                        frac == dv * pow10((k - k0) as nat),
                        pow10(((k + 1) - k0) as nat) == 10 * pow10((k - k0) as nat),
                {}
            }
            frac = frac * 10;
            k = k + 1;
        }
        proof {
            assert(frac == frac_milli(cs@, fstart, fe));
        }
    } else {
        proof {
            assert(frac == 0);
        }
    }
    if j < n && (cs[j] == 'e' || cs[j] == 'E') {
        return None;
    }
    proof {
        assert(0 <= frac <= 999);
    }
    let mag: i64 = whole * 1000 + frac;
    let v: i64 = if neg {
        -mag
    } else {
        mag
    };
    proof {
        assert(number_at(cs@, i as int) matches Some(q) && v == q.0 && j as int == q.1);
    }
    Some((v, j))
}

/// Checks for the exact chars of a literal word at `j`.
fn expect_word(cs: &Vec<char>, j: usize, w: &Vec<char>) -> (r: bool)
    requires
        j <= cs@.len(),
    ensures
        r == word_at(cs@, j as int, w@),
{
    let n = cs.len();
    let m = w.len();
    if n - j < m {
        return false;
    }
    let mut k: usize = 0;
    while k < m
        invariant
            k <= m,
            m == w@.len(),
            n == cs@.len(),
            j + m <= n,
            forall|t: int| 0 <= t < k ==> cs@[j + t] == w@[t],
        decreases m - k,
    {
        if cs[j + k] != w[k] {
            proof {
                if word_at(cs@, j as int, w@) {
                    assert(cs@.subrange(j as int, j + w@.len() as int)[k as int] == w@[k as int]);
                }
            }
            return false;
        }
        k = k + 1;
    }
    proof {
        assert(cs@.subrange(j as int, j + w@.len() as int) =~= w@);
    }
    true
}

/// Reads one JSON value starting at `i` (no leading blanks): exactly the
/// value and end position `value_at` ascribes to it under the remaining
/// nesting budget `depth`.
pub fn parse_value(cs: &Vec<char>, i: usize, depth: u32) -> (r: Option<(Json, usize)>)
    requires
        i <= cs@.len(),
    ensures
        r matches Some(p) ==> i < p.1 <= cs@.len(),
        r is Some <==> value_at(cs@, i as int, depth as nat) is Some,
        r matches Some(p) ==> value_at(cs@, i as int, depth as nat) matches Some(q) && json_view(
            p.0,
        ) == q.0 && p.1 as int == q.1,
    decreases depth, cs@.len() - i, 0int,
{
    let n = cs.len();
    if i >= n {
        return None;
    }
    let c = cs[i];
    if c == '"' {
        match parse_string_raw(cs, i) {
            Some((s, j)) => Some((Json::Str(s), j)),
            None => None,
        }
    } else if c == '{' {
        if depth == 0 {
            None
        } else {
            parse_object(cs, i, depth - 1)
        }
    } else if c == '[' {
        if depth == 0 {
            None
        } else {
            parse_array(cs, i, depth - 1)
        }
    } else if c == 't' {
        let mut w: Vec<char> = Vec::new();
        w.push('t');
        w.push('r');
        w.push('u');
        w.push('e');
        proof {
            reveal_strlit("true");
            assert(w@ =~= "true"@);
        }
        if expect_word(cs, i, &w) {
            Some((Json::Bool(true), i + 4))
        } else {
            None
        }
    } else if c == 'f' {
        let mut w: Vec<char> = Vec::new();
        w.push('f');
        w.push('a');
        w.push('l');
        w.push('s');
        w.push('e');
        proof {
            reveal_strlit("false");
            assert(w@ =~= "false"@);
        }
        if expect_word(cs, i, &w) {
            Some((Json::Bool(false), i + 5))
        } else {
            None
        }
    } else if c == 'n' {
        let mut w: Vec<char> = Vec::new();
        w.push('n');
        w.push('u');
        w.push('l');
        w.push('l');
        proof {
            reveal_strlit("null");
            assert(w@ =~= "null"@);
        }
        if expect_word(cs, i, &w) {
            Some((Json::Null, i + 4))
        } else {
            None
        }
    } else if c == '-' || is_digit(c) {
        match parse_number(cs, i) {
            Some((v, j)) => Some((Json::Num(v), j)),
            None => None,
        }
    } else {
        None
    }
}

/// Reads an array starting at its opening bracket: exactly the elements
/// and end position `array_tail` ascribes to what follows the bracket.
fn parse_array(cs: &Vec<char>, i: usize, depth: u32) -> (r: Option<(Json, usize)>)
    requires
        i < cs@.len(),
        cs@[i as int] == '[',
    ensures
        r matches Some(p) ==> i < p.1 <= cs@.len() && p.0 is Arr,
        r is Some <==> array_tail(cs@, ws_end(cs@, i + 1), depth as nat) is Some,
        r matches Some(p) ==> array_tail(cs@, ws_end(cs@, i + 1), depth as nat) matches Some(q)
            && json_view(p.0) == JsonV::Arr(q.0) && p.1 as int == q.1,
    decreases depth, cs@.len() - i, 2int,
{
    let n = cs.len();
    let mut items: Vec<Json> = Vec::new();
    let j0 = skip_ws(cs, i + 1);
    let mut j = j0;
    if j < n && cs[j] == ']' {
        proof {
            assert(arr_view(items@) =~= Seq::<JsonV>::empty());
        }
        return Some((Json::Arr(items), j + 1));
    }
    while j < n
        invariant
            i < j <= n,
            n == cs@.len(),
            j0 as int == ws_end(cs@, i + 1),
            array_tail(cs@, j0 as int, depth as nat) == elems_at(cs@, j0 as int, depth as nat),
            match elems_at(cs@, j as int, depth as nat) {
                Some((rest, e)) => elems_at(cs@, j0 as int, depth as nat) == Some(
                    (arr_view(items@) + rest, e),
                ),
                None => elems_at(cs@, j0 as int, depth as nat) is None,
            },
        decreases n - j,
    {
        let (v, j2) = match parse_value(cs, j, depth) {
            Some(p) => p,
            None => {
                return None;
            },
        };
        let j3 = skip_ws(cs, j2);
        proof {
            assert(clamp_pos(cs@, j + 1, j2 as int) == j2 as int);
            assert(clamp_pos(cs@, j2 as int, ws_end(cs@, j2 as int)) == j3 as int);
        }
        if j3 < n && cs[j3] == ',' {
            let j4 = skip_ws(cs, j3 + 1);
            proof {
                assert(clamp_pos(cs@, j3 + 1, ws_end(cs@, j3 + 1)) == j4 as int);
                let ghost old_items = items@;
                match elems_at(cs@, j4 as int, depth as nat) {
                    Some((rest2, e2)) => {
                        assert(elems_at(cs@, j as int, depth as nat) == Some(
                            (seq![json_view(v)] + rest2, e2),
                        ));
                        assert((old_items.push(v)).drop_last() =~= old_items);
                        assert((old_items.push(v)).last() == v);
                        assert(arr_view(old_items.push(v)) =~= arr_view(old_items).push(
                            json_view(v),
                        ));
                        assert(arr_view(old_items) + (seq![json_view(v)] + rest2) =~= arr_view(
                            old_items.push(v),
                        ) + rest2);
                    },
                    None => {
                        assert(elems_at(cs@, j as int, depth as nat) is None);
                    },
                }
            }
            items.push(v);
            j = j4;
        } else if j3 < n && cs[j3] == ']' {
            proof {
                assert(elems_at(cs@, j as int, depth as nat) == Some(
                    (seq![json_view(v)], j3 + 1),
                ));
                assert((items@.push(v)).drop_last() =~= items@);
                assert((items@.push(v)).last() == v);
                assert(arr_view(items@.push(v)) =~= arr_view(items@).push(json_view(v)));
                assert(arr_view(items@) + seq![json_view(v)] =~= arr_view(items@.push(v)));
            }
            items.push(v);
            return Some((Json::Arr(items), j3 + 1));
        } else {
            return None;
        }
    }
    None
}

/// Reads an object starting at its opening brace: exactly the members and
/// end position `object_tail` ascribes to what follows the brace.
fn parse_object(cs: &Vec<char>, i: usize, depth: u32) -> (r: Option<(Json, usize)>)
    requires
        i < cs@.len(),
        cs@[i as int] == '{',
    ensures
        r matches Some(p) ==> i < p.1 <= cs@.len() && p.0 is Obj,
        r is Some <==> object_tail(cs@, ws_end(cs@, i + 1), depth as nat) is Some,
        r matches Some(p) ==> object_tail(cs@, ws_end(cs@, i + 1), depth as nat) matches Some(q)
            && json_view(p.0) == JsonV::Obj(q.0) && p.1 as int == q.1,
    decreases depth, cs@.len() - i, 2int,
{
    let n = cs.len();
    let mut members: Vec<(String, Json)> = Vec::new();
    let j0 = skip_ws(cs, i + 1);
    let mut j = j0;
    if j < n && cs[j] == '}' {
        proof {
            assert(obj_view(members@) =~= Seq::<(Seq<char>, JsonV)>::empty());
        }
        return Some((Json::Obj(members), j + 1));
    }
    while j < n
        invariant
            i < j <= n,
            n == cs@.len(),
            j0 as int == ws_end(cs@, i + 1),
            object_tail(cs@, j0 as int, depth as nat) == members_at(cs@, j0 as int, depth as nat),
            match members_at(cs@, j as int, depth as nat) {
                Some((rest, e)) => members_at(cs@, j0 as int, depth as nat) == Some(
                    (obj_view(members@) + rest, e),
                ),
                None => members_at(cs@, j0 as int, depth as nat) is None,
            },
        decreases n - j,
    {
        let (key, j2) = match parse_string_raw(cs, j) {
            Some(p) => p,
            None => {
                return None;
            },
        };
        let j3 = skip_ws(cs, j2);
        proof {
            assert(clamp_pos(cs@, j + 1, j2 as int) == j2 as int);
            assert(clamp_pos(cs@, j2 as int, ws_end(cs@, j2 as int)) == j3 as int);
        }
        if !(j3 < n && cs[j3] == ':') {
            return None;
        }
        let j4 = skip_ws(cs, j3 + 1);
        proof {
            assert(clamp_pos(cs@, j3 + 1, ws_end(cs@, j3 + 1)) == j4 as int);
        }
        let (v, j5) = match parse_value(cs, j4, depth) {
            Some(p) => p,
            None => {
                return None;
            },
        };
        let j6 = skip_ws(cs, j5);
        proof {
            assert(clamp_pos(cs@, j4 + 1, j5 as int) == j5 as int);
            assert(clamp_pos(cs@, j5 as int, ws_end(cs@, j5 as int)) == j6 as int);
        }
        if j6 < n && cs[j6] == ',' {
            let j7 = skip_ws(cs, j6 + 1);
            proof {
                assert(clamp_pos(cs@, j6 + 1, ws_end(cs@, j6 + 1)) == j7 as int);
                let ghost old_members = members@;
                let ghost pair = (key@, json_view(v));
                match members_at(cs@, j7 as int, depth as nat) {
                    Some((rest2, e2)) => {
                        assert(members_at(cs@, j as int, depth as nat) == Some(
                            (seq![pair] + rest2, e2),
                        ));
                        assert((old_members.push((key, v))).drop_last() =~= old_members);
                        assert((old_members.push((key, v))).last() == (key, v));
                        assert(obj_view(old_members.push((key, v))) =~= obj_view(
                            old_members,
                        ).push(pair));
                        assert(obj_view(old_members) + (seq![pair] + rest2) =~= obj_view(
                            old_members.push((key, v)),
                        ) + rest2);
                    },
                    None => {
                        assert(members_at(cs@, j as int, depth as nat) is None);
                    },
                }
            }
            members.push((key, v));
            j = j7;
        } else if j6 < n && cs[j6] == '}' {
            proof {
                let ghost pair = (key@, json_view(v));
                assert(members_at(cs@, j as int, depth as nat) == Some((seq![pair], j6 + 1)));
                assert((members@.push((key, v))).drop_last() =~= members@);
                assert((members@.push((key, v))).last() == (key, v));
                assert(obj_view(members@.push((key, v))) =~= obj_view(members@).push(pair));
                assert(obj_view(members@) + seq![pair] =~= obj_view(members@.push((key, v))));
            }
            members.push((key, v));
            return Some((Json::Obj(members), j6 + 1));
        } else {
            return None;
        }
    }
    None
}

/// Reads the single JSON value a line holds, demanding that nothing but
/// blanks surround it — exactly the value `line_value` ascribes to the
/// line, under the fixed nesting budget.
pub fn parse_line_value(cs: &Vec<char>) -> (r: Option<Json>)
    ensures
        r is Some <==> line_value(cs@) is Some,
        r matches Some(v) ==> line_value(cs@) == Some(json_view(v)),
{
    proof {
        assert(spec_depth_limit() == 128);
    }
    let j = skip_ws(cs, 0);
    match parse_value(cs, j, 128) {
        Some((v, j2)) => {
            let j3 = skip_ws(cs, j2);
            if j3 == cs.len() {
                Some(v)
            } else {
                None
            }
        },
        None => None,
    }
}

} // verus!
