//! The readings codec: a message body is a space-separated record of
//! tokens in fixed positions. It is decoded into typed fields, and rendered
//! as one telemetry line `weather,station=<id> key=value,...`.
use vstd::prelude::*;
use vstd::string::{StrSliceExecFns, StringExecFns};

verus! {

/// Number of token positions in a reading.
pub const FIELD_COUNT: usize = 32;

/// Positions below this one (channel, date, time) are never emitted as fields.
pub const FIRST_EMITTED: usize = 3;

/// Position of the date token.
pub const DATE_POS: usize = 1;

/// Position of the time-of-day token.
pub const TIME_POS: usize = 2;

/// Position of the wind octant, the only text field.
pub const OCTANT_POS: usize = 12;

/// Splits `s` at every space, as `str::split(' ')` does: `n` spaces give
/// `n + 1` tokens, some of them possibly empty.
pub open spec fn split_spaces(s: Seq<char>) -> Seq<Seq<char>>
    decreases s.len(),
{
    if s.len() == 0 {
        seq![Seq::empty()]
    } else {
        let r = split_spaces(s.drop_last());
        if s.last() == ' ' {
            r.push(Seq::empty())
        } else {
            r.update(r.len() - 1, r.last().push(s.last()))
        }
    }
}

/// The views of a list of strings.
pub open spec fn views(v: Seq<String>) -> Seq<Seq<char>> {
    v.map_values(|t: String| t@)
}

proof fn lemma_split_nonempty(s: Seq<char>)
    ensures
        split_spaces(s).len() >= 1,
    decreases s.len(),
{
    if s.len() > 0 {
        lemma_split_nonempty(s.drop_last());
    }
}

/// Splits `s` into its space-separated tokens.
pub fn tokens(s: &str) -> (r: Vec<String>)
    ensures
        views(r@) == split_spaces(s@),
{
    let n = s.unicode_len();
    let mut r: Vec<String> = Vec::new();
    let mut start: usize = 0;
    let mut i: usize = 0;
    proof {
        assert(s@.take(0).len() == 0);
        assert(s@.subrange(0, 0) =~= Seq::<char>::empty());
        assert(split_spaces(s@.take(0)) == seq![Seq::<char>::empty()]);
        assert(views(r@) =~= Seq::<Seq<char>>::empty());
        assert(views(r@).push(s@.subrange(0, 0)) =~= split_spaces(s@.take(0)));
    }
    while i < n
        invariant
            n == s@.len(),
            start <= i <= n,
            views(r@).push(s@.subrange(start as int, i as int)) == split_spaces(s@.take(i as int)),
        decreases n - i,
    {
        let c = s.get_char(i);
        proof {
            let t = s@.take(i + 1);
            assert(t.drop_last() =~= s@.take(i as int));
            assert(t.last() == c);
            lemma_split_nonempty(s@.take(i as int));
        }
        if c == ' ' {
            let piece = s.substring_char(start, i);
            let ghost before = r@;
            r.push(piece.to_owned());
            proof {
                assert(views(r@) =~= views(before).push(piece@));
                assert(s@.subrange(i + 1, i + 1) =~= Seq::<char>::empty());
            }
            start = i + 1;
        } else {
            proof {
                assert(s@.subrange(start as int, i + 1) =~= s@.subrange(start as int, i as int).push(c));
            }
        }
        i = i + 1;
    }
    let ghost before = r@;
    let last = s.substring_char(start, n);
    r.push(last.to_owned());
    proof {
        assert(views(r@) =~= views(before).push(last@));
        assert(s@.take(n as int) =~= s@);
    }
    r
}

/// A placeholder token stands for an absent sensor: it holds nothing but
/// `-` and `.` characters.
pub open spec fn is_placeholder(t: Seq<char>) -> bool {
    forall|i: int| 0 <= i < t.len() ==> t[i] == '-' || t[i] == '.'
}

/// Whether `t` is a placeholder token.
pub fn placeholder(t: &str) -> (r: bool)
    ensures
        r == is_placeholder(t@),
{
    let n = t.unicode_len();
    let mut i: usize = 0;
    while i < n
        invariant
            n == t@.len(),
            i <= n,
            forall|j: int| 0 <= j < i ==> t@[j] == '-' || t@[j] == '.',
        decreases n - i,
    {
        let c = t.get_char(i);
        if c != '-' && c != '.' {
            return false;
        }
        i = i + 1;
    }
    true
}

/// The field name of token position `k`.
pub open spec fn field_key(k: int) -> Seq<char> {
    if k == 0 {
        "channel"@
    } else if k == 1 {
        "date"@
    } else if k == 2 {
        "time"@
    } else if k == 3 {
        "indoor_temp"@
    } else if k == 4 {
        "indoor_humidity"@
    } else if k == 5 {
        "temp"@
    } else if k == 6 {
        "humidity"@
    } else if k == 7 {
        "rain"@
    } else if k == 8 {
        "rate"@
    } else if k == 9 {
        "wind"@
    } else if k == 10 {
        "gust"@
    } else if k == 11 {
        "dir"@
    } else if k == 12 {
        "wind_octant"@
    } else if k == 13 {
        "pressure"@
    } else if k == 14 {
        "pressure_local"@
    } else if k == 15 {
        "uv_index"@
    } else if k == 16 {
        "dew"@
    } else if k == 17 {
        "outdoor_heat_index"@
    } else if k == 18 {
        "sensor1_temp"@
    } else if k == 19 {
        "sensor1_humidity"@
    } else if k == 20 {
        "sensor2_temp"@
    } else if k == 21 {
        "sensor2_humidity"@
    } else if k == 22 {
        "sensor3_temp"@
    } else if k == 23 {
        "sensor3_humidity"@
    } else if k == 24 {
        "sensor4_temp"@
    } else if k == 25 {
        "sensor4_humidity"@
    } else if k == 26 {
        "sensor5_temp"@
    } else if k == 27 {
        "sensor5_humidity"@
    } else if k == 28 {
        "sensor6_temp"@
    } else if k == 29 {
        "sensor6_humidity"@
    } else if k == 30 {
        "sensor7_temp"@
    } else {
        "sensor7_humidity"@
    }
}

/// The field name of token position `k`.
pub fn key_at(k: usize) -> (r: &'static str)
    requires
        k < FIELD_COUNT,
    ensures
        r@ == field_key(k as int),
{
    if k == 0 {
        "channel"
    } else if k == 1 {
        "date"
    } else if k == 2 {
        "time"
    } else if k == 3 {
        "indoor_temp"
    } else if k == 4 {
        "indoor_humidity"
    } else if k == 5 {
        "temp"
    } else if k == 6 {
        "humidity"
    } else if k == 7 {
        "rain"
    } else if k == 8 {
        "rate"
    } else if k == 9 {
        "wind"
    } else if k == 10 {
        "gust"
    } else if k == 11 {
        "dir"
    } else if k == 12 {
        "wind_octant"
    } else if k == 13 {
        "pressure"
    } else if k == 14 {
        "pressure_local"
    } else if k == 15 {
        "uv_index"
    } else if k == 16 {
        "dew"
    } else if k == 17 {
        "outdoor_heat_index"
    } else if k == 18 {
        "sensor1_temp"
    } else if k == 19 {
        "sensor1_humidity"
    } else if k == 20 {
        "sensor2_temp"
    } else if k == 21 {
        "sensor2_humidity"
    } else if k == 22 {
        "sensor3_temp"
    } else if k == 23 {
        "sensor3_humidity"
    } else if k == 24 {
        "sensor4_temp"
    } else if k == 25 {
        "sensor4_humidity"
    } else if k == 26 {
        "sensor5_temp"
    } else if k == 27 {
        "sensor5_humidity"
    } else if k == 28 {
        "sensor6_temp"
    } else if k == 29 {
        "sensor6_humidity"
    } else if k == 30 {
        "sensor7_temp"
    } else {
        "sensor7_humidity"
    }
}

/// The `key=value` text of the field at position `k` whose token is `tok`;
/// the octant is quoted, numbers stand as written.
pub open spec fn piece(k: int, tok: Seq<char>) -> Seq<char> {
    field_key(k) + "="@ + if k == OCTANT_POS {
        "\""@ + tok + "\""@
    } else {
        tok
    }
}

/// The field emitted for each position of a token list, if any: channel,
/// date and time never are, nor a position without a token or whose token
/// is a placeholder; tokens past the last position are ignored.
pub open spec fn token_fields(toks: Seq<Seq<char>>) -> Seq<Option<Seq<char>>> {
    Seq::new(
        FIELD_COUNT as nat,
        |k: int|
            if k < FIRST_EMITTED || k >= toks.len() || is_placeholder(toks[k]) {
                None
            } else {
                Some(piece(k, toks[k]))
            },
    )
}

/// Some position holds a field.
pub open spec fn has_field(f: Seq<Option<Seq<char>>>) -> bool {
    exists|i: int| 0 <= i < f.len() && f[i] is Some
}

/// The fields that are present, in position order, separated by commas.
pub open spec fn joined(f: Seq<Option<Seq<char>>>) -> Seq<char>
    decreases f.len(),
{
    if f.len() == 0 {
        Seq::empty()
    } else {
        let j = joined(f.drop_last());
        match f.last() {
            None => j,
            Some(p) => if has_field(f.drop_last()) {
                j + ","@ + p
            } else {
                p
            },
        }
    }
}

proof fn lemma_joined_empty(f: Seq<Option<Seq<char>>>)
    requires
        !has_field(f),
    ensures
        joined(f) == Seq::<char>::empty(),
    decreases f.len(),
{
    if f.len() > 0 {
        assert(f.last() is None);
        if has_field(f.drop_last()) {
            let i = choose|i: int| 0 <= i < f.len() - 1 && f.drop_last()[i] is Some;
            assert(f[i] is Some);
        }
        lemma_joined_empty(f.drop_last());
    }
}

/// The telemetry line of station `station` with fields `f`: the measurement
/// and station tag, then, if any field is present, a space and the fields.
pub open spec fn line(station: Seq<char>, f: Seq<Option<Seq<char>>>) -> Seq<char> {
    if has_field(f) {
        "weather,station="@ + station + " "@ + joined(f)
    } else {
        "weather,station="@ + station
    }
}

/// The views of a list of optional strings.
pub open spec fn opt_views(v: Seq<Option<String>>) -> Seq<Option<Seq<char>>> {
    v.map_values(|o: Option<String>|
        match o {
            Some(t) => Some(t@),
            None => None,
        })
}

/// The `key=value` text of the field at position `k` whose token is `tok`.
pub fn piece_text(k: usize, tok: &str) -> (r: String)
    requires
        k < FIELD_COUNT,
    ensures
        r@ == piece(k as int, tok@),
{
    let mut r = String::new();
    r.append(key_at(k));
    r.append("=");
    if k == OCTANT_POS {
        r.append("\"");
        r.append(tok);
        r.append("\"");
    } else {
        r.append(tok);
    }
    assert(r@ =~= piece(k as int, tok@));
    r
}

/// Renders the telemetry line of station `station` with fields `fields`.
pub fn render_line(station: &str, fields: &Vec<Option<String>>) -> (r: String)
    ensures
        r@ == line(station@, opt_views(fields@)),
{
    let ghost fv = opt_views(fields@);
    let mut body = String::new();
    let mut any = false;
    let mut k: usize = 0;
    proof {
        assert(fv.take(0) =~= Seq::<Option<Seq<char>>>::empty());
    }
    while k < fields.len()
        invariant
            fv == opt_views(fields@),
            k <= fields@.len(),
            body@ == joined(fv.take(k as int)),
            any == has_field(fv.take(k as int)),
        decreases fields@.len() - k,
    {
        let ghost before = body@;
        let ghost pre = fv.take(k as int);
        let ghost cur = fv.take(k + 1);
        proof {
            assert(cur.drop_last() =~= pre);
            assert(cur.last() == fv[k as int]);
        }
        match &fields[k] {
            Some(p) => {
                if any {
                    body.append(",");
                    body.append(p.as_str());
                    assert(body@ =~= before + ","@ + p@);
                } else {
                    proof {
                        lemma_joined_empty(pre);
                    }
                    body.append(p.as_str());
                    assert(body@ =~= p@);
                }
                assert(cur[k as int] is Some);
                any = true;
            },
            None => {
                proof {
                    if has_field(cur) {
                        let i = choose|i: int| 0 <= i < cur.len() && cur[i] is Some;
                        assert(pre[i] is Some);
                    }
                }
            },
        }
        proof {
            if has_field(pre) {
                let i = choose|i: int| 0 <= i < pre.len() && pre[i] is Some;
                assert(cur[i] is Some);
            }
        }
        k = k + 1;
    }
    proof {
        assert(fv.take(fields@.len() as int) =~= fv);
    }
    let mut out = String::new();
    out.append("weather,station=");
    out.append(station);
    if any {
        out.append(" ");
        out.append(body.as_str());
    }
    proof {
        assert(out@ =~= line(station@, fv));
    }
    out
}

/// Renders the message body `msg` as the telemetry line of station `station`.
pub fn idb(msg: &str, station: &str) -> (r: String)
    ensures
        r@ == line(station@, token_fields(split_spaces(msg@))),
{
    let toks = tokens(msg);
    let ghost tv = views(toks@);
    let ghost want = token_fields(tv);
    let mut fields: Vec<Option<String>> = Vec::new();
    let mut k: usize = 0;
    while k < FIELD_COUNT
        invariant
            tv == views(toks@),
            tv.len() == toks@.len(),
            want == token_fields(tv),
            k <= FIELD_COUNT,
            fields@.len() == k,
            forall|j: int| 0 <= j < k ==> opt_views(fields@)[j] == want[j],
        decreases FIELD_COUNT - k,
    {
        if k >= FIRST_EMITTED && k < toks.len() && !placeholder(toks[k].as_str()) {
            assert(toks[k as int]@ == tv[k as int]);
            fields.push(Some(piece_text(k, toks[k].as_str())));
        } else {
            fields.push(None);
        }
        k = k + 1;
    }
    assert(opt_views(fields@) =~= want);
    render_line(station, &fields)
}

/// Largest magnitude, as a digit string read without its point, that a
/// numeric field may carry: eighteen nines.
pub const MAX_MANTISSA: u64 = 999_999_999_999_999_999;

/// A decimal digit.
pub open spec fn is_digit(c: char) -> bool {
    '0' <= c && c <= '9'
}

/// The value of a decimal digit.
pub open spec fn digit_val(c: char) -> int {
    c as int - '0' as int
}

/// The digits of `t`, read in order as one decimal integer; other
/// characters are skipped.
pub open spec fn digits_value(t: Seq<char>) -> int
    decreases t.len(),
{
    if t.len() == 0 {
        0
    } else if is_digit(t.last()) {
        digits_value(t.drop_last()) * 10 + digit_val(t.last())
    } else {
        digits_value(t.drop_last())
    }
}

/// How many digits `t` holds.
pub open spec fn digit_count(t: Seq<char>) -> int
    decreases t.len(),
{
    if t.len() == 0 {
        0
    } else {
        digit_count(t.drop_last()) + if is_digit(t.last()) { 1int } else { 0 }
    }
}

/// How many decimal points `t` holds.
pub open spec fn dot_count(t: Seq<char>) -> int
    decreases t.len(),
{
    if t.len() == 0 {
        0
    } else {
        dot_count(t.drop_last()) + if t.last() == '.' { 1int } else { 0 }
    }
}

/// How many characters follow the last decimal point of `t` (all of them
/// when there is none).
pub open spec fn tail_len(t: Seq<char>) -> int
    decreases t.len(),
{
    if t.len() == 0 {
        0
    } else if t.last() == '.' {
        0
    } else {
        tail_len(t.drop_last()) + 1
    }
}

/// An unsigned decimal: digits with at most one point, at least one digit,
/// and a magnitude that fits a mantissa.
pub open spec fn is_unsigned_decimal(b: Seq<char>) -> bool {
    &&& forall|i: int| 0 <= i < b.len() ==> is_digit(#[trigger] b[i]) || b[i] == '.'
    &&& dot_count(b) <= 1
    &&& digit_count(b) >= 1
    &&& digits_value(b) <= MAX_MANTISSA
}

/// A numeric field as written, and its value `mantissa / 10^scale`.
pub struct NumberView {
    pub text: Seq<char>,
    pub mantissa: int,
    pub scale: int,
}

/// Token `t` starts with a sign.
pub open spec fn has_sign(t: Seq<char>) -> bool {
    t.len() > 0 && (t[0] == '-' || t[0] == '+')
}

/// Token `t` without its sign.
pub open spec fn unsigned_part(t: Seq<char>) -> Seq<char> {
    if has_sign(t) {
        t.drop_first()
    } else {
        t
    }
}

/// The numeric value of token `t`: an optional sign `-` or `+`, then an
/// unsigned decimal.
pub open spec fn number_of(t: Seq<char>) -> Option<NumberView> {
    let signed = has_sign(t);
    let b = unsigned_part(t);
    if is_unsigned_decimal(b) {
        Some(NumberView {
            text: t,
            mantissa: if signed && t[0] == '-' { -digits_value(b) } else { digits_value(b) },
            scale: if dot_count(b) == 0 { 0 } else { tail_len(b) },
        })
    } else {
        None
    }
}

/// A numeric field: the token as written and its value `mantissa / 10^scale`.
#[derive(Debug)]
pub struct Number {
    pub text: String,
    pub mantissa: i64,
    pub scale: usize,
}

impl View for Number {
    type V = NumberView;

    open spec fn view(&self) -> NumberView {
        NumberView { text: self.text@, mantissa: self.mantissa as int, scale: self.scale as int }
    }
}

proof fn lemma_prefix_counts(s: Seq<char>, j: int)
    requires
        0 <= j <= s.len(),
    ensures
        0 <= digits_value(s.take(j)) <= digits_value(s),
        dot_count(s.take(j)) <= dot_count(s),
    decreases s.len(),
{
    if j < s.len() {
        assert(s.take(j) =~= s.drop_last().take(j));
        lemma_prefix_counts(s.drop_last(), j);
    } else {
        assert(s.take(j) =~= s);
        if s.len() > 0 {
            lemma_prefix_counts(s.drop_last(), j - 1);
        }
    }
}

/// Reads token `t` as a number.
pub fn parse_number(t: &str) -> (r: Option<Number>)
    ensures
        r matches Some(n) ==> number_of(t@) == Some(n@),
        r is None ==> number_of(t@) is None,
{
    let n = t.unicode_len();
    let mut start: usize = 0;
    let mut negative = false;
    if n > 0 {
        let c0 = t.get_char(0);
        if c0 == '-' || c0 == '+' {
            negative = c0 == '-';
            start = 1;
        }
    }
    let ghost b = t@.subrange(start as int, n as int);
    proof {
        if start == 1 {
            assert(b =~= t@.drop_first());
        } else {
            assert(b =~= t@);
        }
    }
    let mut acc: u64 = 0;
    let mut digits: usize = 0;
    let mut dots: usize = 0;
    let mut frac: usize = 0;
    let mut i: usize = start;
    proof {
        assert(b.take(0) =~= Seq::<char>::empty());
    }
    while i < n
        invariant
            n == t@.len(),
            start <= i <= n,
            (start == 1) == has_sign(t@),
            start <= 1,
            negative == (start == 1 && t@[0] == '-'),
            b == t@.subrange(start as int, n as int),
            b == unsigned_part(t@),
            acc == digits_value(b.take(i - start)),
            acc <= MAX_MANTISSA,
            digits == digit_count(b.take(i - start)),
            dots == dot_count(b.take(i - start)),
            dots <= 1,
            frac == tail_len(b.take(i - start)),
            digits <= i,
            frac <= i,
            forall|j: int| 0 <= j < i - start ==> is_digit(#[trigger] b[j]) || b[j] == '.',
        decreases n - i,
    {
        let c = t.get_char(i);
        let ghost p = b.take(i - start);
        let ghost q = b.take(i - start + 1);
        proof {
            assert(q.drop_last() =~= p);
            assert(q.last() == c);
        }
        if '0' <= c && c <= '9' {
            if acc >= 100_000_000_000_000_000 {
                proof {
                    assert(digits_value(q) == acc * 10 + digit_val(c));
                    lemma_prefix_counts(b, i - start + 1);
                    assert(!is_unsigned_decimal(b));
                }
                return None;
            }
            acc = acc * 10 + (c as u32 - '0' as u32) as u64;
            digits = digits + 1;
            frac = frac + 1;
        } else if c == '.' {
            if dots == 1 {
                proof {
                    lemma_prefix_counts(b, i - start + 1);
                }
                return None;
            }
            dots = 1;
            frac = 0;
        } else {
            proof {
                assert(b[i - start] == c);
                assert(!(is_digit(b[i - start]) || b[i - start] == '.'));
                assert(!is_unsigned_decimal(b));
            }
            return None;
        }
        i = i + 1;
    }
    proof {
        assert(b.take(n - start) =~= b);
    }
    if digits == 0 {
        return None;
    }
    let magnitude = acc as i64;
    let mantissa = if negative {
        -magnitude
    } else {
        magnitude
    };
    let scale = if dots == 0 {
        0
    } else {
        frac
    };
    Some(Number { text: t.to_owned(), mantissa, scale })
}


/// A reading's date and time of day, to the minute.
#[derive(Debug, Clone, Copy, PartialEq, Eq, Structural)]
pub struct Timestamp {
    pub year: u16,
    pub month: u8,
    pub day: u8,
    pub hour: u8,
    pub minute: u8,
}

/// Gregorian leap year.
pub open spec fn is_leap_year(y: int) -> bool {
    (y % 4 == 0 && y % 100 != 0) || y % 400 == 0
}

/// Number of days of month `m` (1-based) of year `y`.
pub open spec fn days_in_month(y: int, m: int) -> int {
    if m == 2 {
        if is_leap_year(y) { 29 } else { 28 }
    } else if m == 4 || m == 6 || m == 9 || m == 11 {
        30
    } else {
        31
    }
}

/// The two-digit number at positions `i` and `i + 1` of `t`.
pub open spec fn two_digits(t: Seq<char>, i: int) -> int {
    digit_val(t[i]) * 10 + digit_val(t[i + 1])
}

/// Token `t` has the shape of `YYYY-MM-DD`.
pub open spec fn is_date_shape(t: Seq<char>) -> bool {
    &&& t.len() == 10
    &&& forall|i: int| 0 <= i < 10 && i != 4 && i != 7 ==> is_digit(#[trigger] t[i])
    &&& t[4] == '-'
    &&& t[7] == '-'
}

/// Token `t` has the shape of `HH:MM`.
pub open spec fn is_time_shape(t: Seq<char>) -> bool {
    &&& t.len() == 5
    &&& forall|i: int| 0 <= i < 5 && i != 2 ==> is_digit(#[trigger] t[i])
    &&& t[2] == ':'
}

/// The timestamp written as date token `d` (`YYYY-MM-DD`) and time token
/// `t` (`HH:MM`), if both are well formed and name a real minute.
pub open spec fn timestamp_of(d: Seq<char>, t: Seq<char>) -> Option<Timestamp> {
    if is_date_shape(d) && is_time_shape(t) {
        let year = two_digits(d, 0) * 100 + two_digits(d, 2);
        let month = two_digits(d, 5);
        let day = two_digits(d, 8);
        let hour = two_digits(t, 0);
        let minute = two_digits(t, 3);
        if 1 <= month <= 12 && 1 <= day <= days_in_month(year, month) && hour < 24 && minute < 60 {
            Some(
                Timestamp {
                    year: year as u16,
                    month: month as u8,
                    day: day as u8,
                    hour: hour as u8,
                    minute: minute as u8,
                },
            )
        } else {
            None
        }
    } else {
        None
    }
}

fn digit_at(t: &str, i: usize) -> (r: Option<u16>)
    requires
        i < t@.len(),
    ensures
        r is Some <==> is_digit(t@[i as int]),
        r matches Some(v) ==> v as int == digit_val(t@[i as int]),
{
    let c = t.get_char(i);
    if '0' <= c && c <= '9' {
        Some((c as u32 - '0' as u32) as u16)
    } else {
        None
    }
}

fn two_digits_at(t: &str, i: usize) -> (r: Option<u16>)
    requires
        i < 16,
        i + 1 < t@.len(),
    ensures
        r is Some <==> is_digit(t@[i as int]) && is_digit(t@[i + 1]),
        r matches Some(v) ==> v as int == two_digits(t@, i as int),
{
    let hi = digit_at(t, i)?;
    let lo = digit_at(t, i + 1)?;
    Some(hi * 10 + lo)
}

/// Reads the timestamp written as date token `d` and time token `t`.
pub fn parse_timestamp(d: &str, t: &str) -> (r: Option<Timestamp>)
    ensures
        r == timestamp_of(d@, t@),
{
    if d.unicode_len() != 10 || t.unicode_len() != 5 {
        return None;
    }
    if d.get_char(4) != '-' || d.get_char(7) != '-' || t.get_char(2) != ':' {
        return None;
    }
    let y1 = two_digits_at(d, 0);
    let y2 = two_digits_at(d, 2);
    let mo = two_digits_at(d, 5);
    let da = two_digits_at(d, 8);
    let ho = two_digits_at(t, 0);
    let mi = two_digits_at(t, 3);
    match (y1, y2, mo, da, ho, mi) {
        (Some(y1), Some(y2), Some(month), Some(day), Some(hour), Some(minute)) => {
            assert(is_date_shape(d@));
            assert(is_time_shape(t@));
            let year = y1 * 100 + y2;
            let leap = (year % 4 == 0 && year % 100 != 0) || year % 400 == 0;
            let days = if month == 2 {
                if leap { 29 } else { 28 }
            } else if month == 4 || month == 6 || month == 9 || month == 11 {
                30
            } else {
                31
            };
            if 1 <= month && month <= 12 && 1 <= day && day <= days && hour < 24 && minute < 60 {
                Some(
                    Timestamp {
                        year,
                        month: month as u8,
                        day: day as u8,
                        hour: hour as u8,
                        minute: minute as u8,
                    },
                )
            } else {
                None
            }
        },
        _ => {
            proof {
                if is_date_shape(d@) && is_time_shape(t@) {
                    assert(is_digit(d@[0]) && is_digit(d@[1]) && is_digit(d@[2]) && is_digit(d@[3]));
                    assert(is_digit(d@[5]) && is_digit(d@[6]) && is_digit(d@[8]) && is_digit(d@[9]));
                    assert(is_digit(t@[0]) && is_digit(t@[1]) && is_digit(t@[3]) && is_digit(t@[4]));
                }
            }
            None
        },
    }
}


/// Why a message body is not a reading.
#[derive(Debug, Clone, Copy, PartialEq, Eq, Structural)]
pub enum DecodeError {
    /// The body has fewer tokens than a reading has positions.
    TruncatedMessage,
    /// The token at this position is not of its field's form.
    InvalidFieldFormat(usize),
}

/// Position `k` holds a number (or a placeholder for one).
pub open spec fn is_numeric_position(k: int) -> bool {
    0 <= k < FIELD_COUNT && k != DATE_POS && k != TIME_POS && k != OCTANT_POS
}

/// The token at position `k` is of its field's form. The date position
/// stands for the whole timestamp; the time and octant positions accept
/// any token.
pub open spec fn field_ok(toks: Seq<Seq<char>>, k: int) -> bool {
    if k == DATE_POS {
        timestamp_of(toks[DATE_POS as int], toks[TIME_POS as int]) is Some
    } else if is_numeric_position(k) {
        is_placeholder(toks[k]) || number_of(toks[k]) is Some
    } else {
        true
    }
}

/// The first position from `k` on whose token is not of its field's form.
pub open spec fn first_invalid(toks: Seq<Seq<char>>, k: int) -> Option<int>
    decreases FIELD_COUNT - k,
{
    if k >= FIELD_COUNT {
        None
    } else if !field_ok(toks, k) {
        Some(k)
    } else {
        first_invalid(toks, k + 1)
    }
}

/// The value at position `k`: absent unless the position is numeric and
/// its token is not a placeholder.
pub open spec fn value_at(toks: Seq<Seq<char>>, k: int) -> Option<NumberView> {
    if is_numeric_position(k) && !is_placeholder(toks[k]) {
        number_of(toks[k])
    } else {
        None
    }
}

/// A decoded reading.
pub struct ReadingView {
    pub timestamp: Timestamp,
    pub wind_octant: Seq<char>,
    pub values: Seq<Option<NumberView>>,
}

/// The reading that token list `toks` encodes: the length is checked first,
/// then the fields from left to right; tokens past the last position are
/// ignored.
pub open spec fn decode_tokens(toks: Seq<Seq<char>>) -> Result<ReadingView, DecodeError> {
    if toks.len() < FIELD_COUNT {
        Err(DecodeError::TruncatedMessage)
    } else {
        match first_invalid(toks, 0) {
            Some(k) => Err(DecodeError::InvalidFieldFormat(k as usize)),
            None => Ok(
                ReadingView {
                    timestamp: timestamp_of(toks[DATE_POS as int], toks[TIME_POS as int])->0,
                    wind_octant: toks[OCTANT_POS as int],
                    values: Seq::new(FIELD_COUNT as nat, |k: int| value_at(toks, k)),
                },
            ),
        }
    }
}

/// The view of an optional number.
pub open spec fn opt_view(o: Option<Number>) -> Option<NumberView> {
    match o {
        Some(n) => Some(n@),
        None => None,
    }
}

/// One reading of the station. `values` has an entry for every token
/// position; it is `None` where the position is not numeric or the sensor
/// reported no value.
#[derive(Debug)]
pub struct Reading {
    pub timestamp: Timestamp,
    pub wind_octant: String,
    pub values: Vec<Option<Number>>,
}

impl View for Reading {
    type V = ReadingView;

    open spec fn view(&self) -> ReadingView {
        ReadingView {
            timestamp: self.timestamp,
            wind_octant: self.wind_octant@,
            values: self.values@.map_values(|o: Option<Number>| opt_view(o)),
        }
    }
}

/// Decodes a message body into a reading.
pub fn decode(body: &str) -> (r: Result<Reading, DecodeError>)
    ensures
        match r {
            Ok(rd) => decode_tokens(split_spaces(body@)) == Ok::<ReadingView, DecodeError>(rd@),
            Err(e) => decode_tokens(split_spaces(body@)) == Err::<ReadingView, DecodeError>(e),
        },
        split_spaces(body@).len() < FIELD_COUNT ==> r matches Err(DecodeError::TruncatedMessage),
{
    let toks = tokens(body);
    let ghost tv = views(toks@);
    assert(tv.len() == toks@.len());
    if toks.len() < FIELD_COUNT {
        return Err(DecodeError::TruncatedMessage);
    }
    let mut values: Vec<Option<Number>> = Vec::new();
    let mut timestamp = Timestamp { year: 0, month: 0, day: 0, hour: 0, minute: 0 };
    let mut k: usize = 0;
    while k < FIELD_COUNT
        invariant
            tv == views(toks@),
            tv == split_spaces(body@),
            tv.len() == toks@.len(),
            toks@.len() >= FIELD_COUNT,
            k <= FIELD_COUNT,
            first_invalid(tv, 0) == first_invalid(tv, k as int),
            values@.len() == k,
            forall|j: int| 0 <= j < k ==> opt_view(#[trigger] values@[j]) == value_at(tv, j),
            k > DATE_POS ==> timestamp_of(tv[DATE_POS as int], tv[TIME_POS as int]) == Some(timestamp),
        decreases FIELD_COUNT - k,
    {
        assert(toks[k as int]@ == tv[k as int]);
        if k == DATE_POS {
            assert(toks[TIME_POS as int]@ == tv[TIME_POS as int]);
            match parse_timestamp(toks[DATE_POS].as_str(), toks[TIME_POS].as_str()) {
                Some(ts) => timestamp = ts,
                None => {
                    assert(first_invalid(tv, k as int) == Some(k as int));
                    return Err(DecodeError::InvalidFieldFormat(k));
                },
            }
            values.push(None);
        } else if k == TIME_POS || k == OCTANT_POS {
            values.push(None);
        } else if placeholder(toks[k].as_str()) {
            values.push(None);
        } else {
            match parse_number(toks[k].as_str()) {
                Some(n) => values.push(Some(n)),
                None => {
                    assert(first_invalid(tv, k as int) == Some(k as int));
                    return Err(DecodeError::InvalidFieldFormat(k));
                },
            }
        }
        k = k + 1;
    }
    let wind_octant = toks[OCTANT_POS].clone();
    assert(wind_octant@ == tv[OCTANT_POS as int]);
    let rd = Reading { timestamp, wind_octant, values };
    proof {
        assert(rd@.values =~= Seq::new(FIELD_COUNT as nat, |j: int| value_at(tv, j)));
    }
    Ok(rd)
}


/// The fields that the telemetry line of reading `r` shows: each numeric
/// value present, as it was written, and the octant, quoted, unless it is a
/// placeholder; channel, date and time never.
pub open spec fn reading_fields(r: ReadingView) -> Seq<Option<Seq<char>>> {
    Seq::new(
        FIELD_COUNT as nat,
        |k: int|
            if k < FIRST_EMITTED {
                None
            } else if k == OCTANT_POS {
                if is_placeholder(r.wind_octant) {
                    None
                } else {
                    Some(piece(k, r.wind_octant))
                }
            } else {
                match r.values[k] {
                    Some(n) => Some(piece(k, n.text)),
                    None => None,
                }
            },
    )
}

impl Reading {
    /// A reading has a value slot for every token position.
    pub open spec fn wf(&self) -> bool {
        self.values@.len() == FIELD_COUNT
    }

    /// Renders the reading as the telemetry line of station `station`.
    pub fn encode(&self, station: &str) -> (s: String)
        requires
            self.wf(),
        ensures
            s@ == line(station@, reading_fields(self@)),
    {
        let ghost want = reading_fields(self@);
        let mut fields: Vec<Option<String>> = Vec::new();
        let mut k: usize = 0;
        while k < FIELD_COUNT
            invariant
                self.wf(),
                want == reading_fields(self@),
                k <= FIELD_COUNT,
                fields@.len() == k,
                forall|j: int| 0 <= j < k ==> opt_views(fields@)[j] == want[j],
            decreases FIELD_COUNT - k,
        {
            if k < FIRST_EMITTED {
                fields.push(None);
            } else if k == OCTANT_POS {
                if placeholder(self.wind_octant.as_str()) {
                    fields.push(None);
                } else {
                    fields.push(Some(piece_text(k, self.wind_octant.as_str())));
                }
            } else {
                assert(self@.values[k as int] == opt_view(self.values@[k as int]));
                match &self.values[k] {
                    Some(n) => fields.push(Some(piece_text(k, n.text.as_str()))),
                    None => fields.push(None),
                }
            }
            k = k + 1;
        }
        assert(opt_views(fields@) =~= want);
        render_line(station, &fields)
    }
}

proof fn lemma_first_invalid(toks: Seq<Seq<char>>, j: int)
    requires
        0 <= j,
    ensures
        first_invalid(toks, j) matches Some(m) ==> j <= m < FIELD_COUNT && !field_ok(toks, m),
        first_invalid(toks, j) is None ==> forall|k: int| j <= k < FIELD_COUNT ==> field_ok(toks, k),
    decreases FIELD_COUNT - j,
{
    if j < FIELD_COUNT && field_ok(toks, j) {
        lemma_first_invalid(toks, j + 1);
        if first_invalid(toks, j) is None {
            assert forall|k: int| j <= k < FIELD_COUNT implies field_ok(toks, k) by {
                if k > j {
                    assert(field_ok(toks, k));
                }
            }
        }
    }
}

/// A placeholder token at a numeric position decodes to an absent value;
/// it is never reported as a format error.
pub proof fn lemma_placeholder_is_absent(toks: Seq<Seq<char>>, k: int)
    requires
        toks.len() >= FIELD_COUNT,
        is_numeric_position(k),
        is_placeholder(toks[k]),
    ensures
        decode_tokens(toks) != Err::<ReadingView, DecodeError>(
            DecodeError::InvalidFieldFormat(k as usize),
        ),
        decode_tokens(toks) matches Ok(r) ==> r.values[k] is None,
{
    lemma_first_invalid(toks, 0);
}

/// Encoding a decoded reading gives the line of the body it was decoded
/// from. A field is left out exactly where its token was a placeholder
/// (channel, date and time are never shown), every field shown is its token
/// as written, and only the octant's is quoted.
pub proof fn lemma_round_trip(body: Seq<char>, station: Seq<char>, r: ReadingView)
    requires
        decode_tokens(split_spaces(body)) == Ok::<ReadingView, DecodeError>(r),
    ensures
        reading_fields(r) == token_fields(split_spaces(body)),
        line(station, reading_fields(r)) == line(station, token_fields(split_spaces(body))),
        forall|k: int|
            FIRST_EMITTED <= k < FIELD_COUNT ==> ((#[trigger] reading_fields(r)[k]) is None
                <==> is_placeholder(split_spaces(body)[k])),
        forall|k: int| 0 <= k < FIRST_EMITTED ==> (#[trigger] reading_fields(r)[k]) is None,
        forall|k: int|
            0 <= k < FIELD_COUNT ==> ((#[trigger] reading_fields(r)[k]) matches Some(p) ==> p
                == field_key(k) + "="@ + if k == OCTANT_POS {
                "\""@ + split_spaces(body)[k] + "\""@
            } else {
                split_spaces(body)[k]
            }),
{
    let toks = split_spaces(body);
    lemma_first_invalid(toks, 0);
    assert forall|k: int| 0 <= k < FIELD_COUNT implies reading_fields(r)[k] == token_fields(
        toks,
    )[k] by {
        if FIRST_EMITTED <= k && k != OCTANT_POS {
            assert(field_ok(toks, k));
            assert(r.values[k] == value_at(toks, k));
        }
    }
    assert(reading_fields(r) =~= token_fields(toks));
}

} // verus!
