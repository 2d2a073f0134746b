//! Decoding StatsD payloads into typed measurements.

use crate::wire::{
    chars_of, int_value, parse_i64, parse_sample_rate, rate_parts, split_nonempty, tokens,
    views_of,
};
use vstd::prelude::*;

verus! {

/// The kind of a metric, as named by the type tag of a line.
#[derive(Clone, Copy, Debug, PartialEq, Eq, Structural)]
pub enum StatKind {
    Counter,
    Timer,
    Gauge,
    Sets,
    Histogram,
}

/// A sample rate held as a decimal: `mantissa / 10^scale`. The parser gives
/// it with no factor of ten common to both (`0.50` is `(5, 1)`). It is exact
/// where the rate's significant digits fit in `u64`; the digits beyond the
/// longest prefix that fits are cut off. A rate text that is negative,
/// `inf`, `NaN`, or no decimal numeral with an optional exponent is a parse
/// error, and so is one whose value exceeds `u64::MAX`.
#[derive(Clone, Copy, Debug, PartialEq, Eq, Structural)]
pub struct Rate {
    pub mantissa: u64,
    pub scale: usize,
}

/// A decoded measurement.
///
/// `Inc` adds to a counter, or to a gauge (a signed delta); `Record` records a
/// timer or histogram sample, an absolute gauge value or a set member; `Del` asks for the
/// removal of a metric; `Bat` holds the measurements of a multi-line payload
/// in the order of its lines.
#[derive(Debug, PartialEq)]
pub enum StatMsg {
    Inc(StatKind, String, i64, Rate),
    Record(StatKind, String, i64, Rate),
    Del(StatKind, String),
    Bat(Vec<StatMsg>),
}

/// The mathematical value of a `StatMsg`: names as character sequences.
pub enum MsgView {
    Inc(StatKind, Seq<char>, i64, Rate),
    Record(StatKind, Seq<char>, i64, Rate),
    Del(StatKind, Seq<char>),
    Bat(Seq<MsgView>),
}

/// The value of `m`, the items of a batch taken one by one.
pub open spec fn msg_view(m: StatMsg) -> MsgView
    decreases m,
{
    match m {
        StatMsg::Inc(k, n, v, r) => MsgView::Inc(k, n@, v, r),
        StatMsg::Record(k, n, v, r) => MsgView::Record(k, n@, v, r),
        StatMsg::Del(k, n) => MsgView::Del(k, n@),
        StatMsg::Bat(ms) => MsgView::Bat(
            Seq::new(
                ms@.len(),
                |i: int|
                    if 0 <= i < ms@.len() {
                        msg_view(ms@[i])
                    } else {
                        MsgView::Bat(Seq::empty())
                    },
            ),
        ),
    }
}

impl View for StatMsg {
    type V = MsgView;

    open spec fn view(&self) -> MsgView {
        msg_view(*self)
    }
}

/// The error of a payload that is no well-formed StatsD message.
#[derive(Clone, Copy, Debug, PartialEq, Eq)]
pub struct ParseMessageError {
    _priv: (),
}

impl ParseMessageError {
    pub fn new() -> ParseMessageError {
        ParseMessageError { _priv: () }
    }

    /// What went wrong, in words.
    pub fn message(&self) -> (r: &'static str)
        ensures
            r@ == "provided string was not a properly formated statsd message"@,
    {
        "provided string was not a properly formated statsd message"
    }
}

/// The value of a parse result: `None` for an error.
pub open spec fn result_view(r: Result<StatMsg, ParseMessageError>) -> Option<MsgView> {
    match r {
        Ok(m) => Some(m@),
        Err(_) => None,
    }
}

/// The kind that a type tag names: `c`, `ms`, `g`, `s` or `h`.
pub open spec fn kind_of(t: Seq<char>) -> Option<StatKind> {
    if t == seq!['c'] {
        Some(StatKind::Counter)
    } else if t == seq!['m', 's'] {
        Some(StatKind::Timer)
    } else if t == seq!['g'] {
        Some(StatKind::Gauge)
    } else if t == seq!['s'] {
        Some(StatKind::Sets)
    } else if t == seq!['h'] {
        Some(StatKind::Histogram)
    } else {
        None
    }
}

/// The rate of a line that gives none.
pub open spec fn unit_rate() -> Rate {
    Rate { mantissa: 1, scale: 0 }
}

/// The value field that asks for the removal of a metric.
pub open spec fn delete_word() -> Seq<char> {
    seq!['d', 'e', 'l', 'e', 't', 'e']
}

/// A value field that starts with a sign: a gauge delta.
pub open spec fn is_signed(t: Seq<char>) -> bool {
    t.len() > 0 && (t[0] == '+' || t[0] == '-')
}

/// The sample rate of a line of fields `f`: read from the fourth field where
/// it starts with `@`, else the unit rate.
pub open spec fn rate_of(f: Seq<Seq<char>>) -> Option<Rate> {
    if f.len() > 3 && f[3].len() > 0 && f[3][0] == '@' {
        match rate_parts(f[3].drop_first()) {
            Some(p) => Some(Rate { mantissa: p.0, scale: p.1 }),
            None => None,
        }
    } else {
        Some(unit_rate())
    }
}

/// The measurement of a line of three or more fields: name, value, type
/// tag, and an optional rate.
pub open spec fn full_line(f: Seq<Seq<char>>) -> Option<MsgView> {
    match kind_of(f[2]) {
        None => None,
        Some(k) => if f[1] == delete_word() {
            Some(MsgView::Del(k, f[0]))
        } else {
            match (int_value(f[1]), rate_of(f)) {
                (Some(v), Some(r)) => if k == StatKind::Counter || (k == StatKind::Gauge
                    && is_signed(f[1])) {
                    Some(MsgView::Inc(k, f[0], v, r))
                } else {
                    Some(MsgView::Record(k, f[0], v, r))
                },
                _ => None,
            }
        },
    }
}

/// The fields of a line: what lies between `:` and `|`, empty ones dropped.
pub open spec fn fields(line: Seq<char>) -> Seq<Seq<char>> {
    tokens(line, ':', '|')
}

/// The measurement that one line stands for, or `None` for a malformed line.
pub open spec fn line_value(line: Seq<char>) -> Option<MsgView> {
    let f = fields(line);
    if f.len() == 0 {
        None
    } else if f.len() == 1 {
        Some(MsgView::Inc(StatKind::Counter, f[0], 1, unit_rate()))
    } else if f.len() == 2 {
        match kind_of(f[1]) {
            None => match int_value(f[1]) {
                Some(v) => Some(MsgView::Inc(StatKind::Counter, f[0], v, unit_rate())),
                None => None,
            },
            Some(StatKind::Counter) => Some(MsgView::Inc(StatKind::Counter, f[0], 1, unit_rate())),
            Some(StatKind::Gauge) => Some(MsgView::Inc(StatKind::Gauge, f[0], 0, unit_rate())),
            Some(k) => Some(MsgView::Record(k, f[0], 0, unit_rate())),
        }
    } else {
        full_line(f)
    }
}

/// Relies on `String`'s `FromIterator<&char>`: the string holds the
/// characters in order.
#[verifier::external_body]
fn string_of(cs: &[char]) -> (r: String)
    ensures
        r@ == cs@,
{
    cs.iter().collect::<String>()
}

/// Reads a type tag.
pub fn parse_kind(raw: &[char]) -> (r: Result<StatKind, ParseMessageError>)
    ensures
        match r {
            Ok(k) => kind_of(raw@) == Some(k),
            Err(_) => kind_of(raw@) is None,
        },
{
    let n = raw.len();
    if n == 1 {
        let c = raw[0];
        if c == 'c' {
            assert(raw@ =~= seq!['c']);
            return Ok(StatKind::Counter);
        } else if c == 'g' {
            assert(raw@ =~= seq!['g']);
            return Ok(StatKind::Gauge);
        } else if c == 's' {
            assert(raw@ =~= seq!['s']);
            return Ok(StatKind::Sets);
        } else if c == 'h' {
            assert(raw@ =~= seq!['h']);
            return Ok(StatKind::Histogram);
        }
        assert(raw@[0] == c);
    } else if n == 2 && raw[0] == 'm' && raw[1] == 's' {
        assert(raw@ =~= seq!['m', 's']);
        return Ok(StatKind::Timer);
    }
    proof {
        if n == 2 {
            assert(seq!['m', 's'][0] == 'm');
            assert(seq!['m', 's'][1] == 's');
        }
    }
    Err(ParseMessageError::new())
}

/// Whether `t` is the word `delete`.
fn is_delete(t: &[char]) -> (r: bool)
    ensures
        r == (t@ == delete_word()),
{
    let ghost w = delete_word();
    if t.len() == 6 && t[0] == 'd' && t[1] == 'e' && t[2] == 'l' && t[3] == 'e' && t[4] == 't'
        && t[5] == 'e' {
        assert(t@ =~= w);
        true
    } else {
        proof {
            if t@ == w {
                assert(t@[0] == w[0] && t@[1] == w[1] && t@[2] == w[2]);
                assert(t@[3] == w[3] && t@[4] == w[4] && t@[5] == w[5]);
            }
        }
        false
    }
}

/// Reads the sample rate of a line of fields.
fn parse_rate(parts: &Vec<Vec<char>>) -> (r: Option<Rate>)
    requires
        parts@.len() >= 3,
    ensures
        r == rate_of(views_of(parts@)),
{
    let ghost f = views_of(parts@);
    if parts.len() > 3 && parts[3].len() > 0 && parts[3][0] == '@' {
        assert(parts[3]@.skip(1) =~= f[3].drop_first());
        match parse_sample_rate(parts[3].as_slice(), 1) {
            Some(p) => Some(Rate { mantissa: p.0, scale: p.1 }),
            None => None,
        }
    } else {
        Some(Rate { mantissa: 1, scale: 0 })
    }
}


/// Builds the measurement of a line of three or more fields.
fn build_msg(parts: &Vec<Vec<char>>) -> (r: Result<StatMsg, ParseMessageError>)
    requires
        parts@.len() >= 3,
    ensures
        result_view(r) == full_line(views_of(parts@)),
{
    let ghost f = views_of(parts@);
    let kind = match parse_kind(parts[2].as_slice()) {
        Ok(k) => k,
        Err(e) => {
            return Err(e);
        },
    };
    let name = string_of(parts[0].as_slice());
    if is_delete(parts[1].as_slice()) {
        return Ok(StatMsg::Del(kind, name));
    }
    let value = match parse_i64(parts[1].as_slice()) {
        Some(v) => v,
        None => {
            return Err(ParseMessageError::new());
        },
    };
    let rate = match parse_rate(parts) {
        Some(r) => r,
        None => {
            return Err(ParseMessageError::new());
        },
    };
    let signed = parts[1].len() > 0 && (parts[1][0] == '+' || parts[1][0] == '-');
    if kind == StatKind::Counter || (kind == StatKind::Gauge && signed) {
        Ok(StatMsg::Inc(kind, name, value, rate))
    } else {
        Ok(StatMsg::Record(kind, name, value, rate))
    }
}

/// Decodes one line.
pub fn parse_msg(raw: &[char]) -> (r: Result<StatMsg, ParseMessageError>)
    ensures
        result_view(r) == line_value(raw@),
{
    let parts = split_nonempty(raw, ':', '|');
    let ghost f = views_of(parts@);
    let n = parts.len();
    let unit = Rate { mantissa: 1, scale: 0 };
    if n == 0 {
        Err(ParseMessageError::new())
    } else if n == 1 {
        Ok(StatMsg::Inc(StatKind::Counter, string_of(parts[0].as_slice()), 1, unit))
    } else if n == 2 {
        let name = string_of(parts[0].as_slice());
        match parse_kind(parts[1].as_slice()) {
            Err(e) => match parse_i64(parts[1].as_slice()) {
                Some(v) => Ok(StatMsg::Inc(StatKind::Counter, name, v, unit)),
                None => Err(e),
            },
            Ok(StatKind::Counter) => Ok(StatMsg::Inc(StatKind::Counter, name, 1, unit)),
            Ok(StatKind::Gauge) => Ok(StatMsg::Inc(StatKind::Gauge, name, 0, unit)),
            Ok(kind) => Ok(StatMsg::Record(kind, name, 0, unit)),
        }
    } else {
        build_msg(&parts)
    }
}


/// The lines of a payload: what lies between newlines, empty lines dropped.
pub open spec fn lines_of(s: Seq<char>) -> Seq<Seq<char>> {
    tokens(s, '\n', '\n')
}

/// The measurement that a whole payload stands for: `None` where it has no
/// line or one of its lines is malformed; the measurement of its line where
/// it has one; else a batch of the measurements of its lines, in order.
pub open spec fn payload_value(s: Seq<char>) -> Option<MsgView> {
    let ls = lines_of(s);
    if ls.len() == 0 || exists|i: int| 0 <= i < ls.len() && (#[trigger] line_value(ls[i])) is None {
        None
    } else if ls.len() == 1 {
        line_value(ls[0])
    } else {
        Some(MsgView::Bat(Seq::new(ls.len(), |i: int| line_value(ls[i])->0)))
    }
}

/// A payload with a malformed line has no value.
pub proof fn lemma_bad_line_fails(s: Seq<char>, k: int)
    requires
        0 <= k < lines_of(s).len(),
        line_value(lines_of(s)[k]) is None,
    ensures
        payload_value(s) is None,
{
}

impl StatMsg {
    /// Decodes a payload of newline-separated lines. One malformed line
    /// fails the whole payload.
    pub fn parse(s: &str) -> (r: Result<StatMsg, ParseMessageError>)
        ensures
            result_view(r) == payload_value(s@),
    {
        let cs = chars_of(s);
        let lines = split_nonempty(cs.as_slice(), '\n', '\n');
        let ghost ls = lines_of(s@);
        let mut msgs: Vec<StatMsg> = Vec::new();
        let mut i: usize = 0;
        while i < lines.len()
            invariant
                0 <= i <= lines@.len() == ls.len(),
                ls == lines_of(s@),
                views_of(lines@) == ls,
                msgs@.len() == i,
                forall|j: int| 0 <= j < i ==> #[trigger] line_value(ls[j]) == Some(msgs@[j]@),
            decreases lines@.len() - i,
        {
            assert(lines@[i as int]@ == ls[i as int]);
            match parse_msg(lines[i].as_slice()) {
                Ok(m) => {
                    msgs.push(m);
                },
                Err(e) => {
                    assert(line_value(ls[i as int]) is None);
                    proof {
                        lemma_bad_line_fails(s@, i as int);
                    }
                    return Err(e);
                },
            }
            i = i + 1;
        }
        assert(forall|j: int| 0 <= j < ls.len() ==> (#[trigger] line_value(ls[j])) is Some);
        if msgs.len() == 0 {
            Err(ParseMessageError::new())
        } else if msgs.len() == 1 {
            match msgs.pop() {
                Some(m) => Ok(m),
                None => Err(ParseMessageError::new()),
            }
        } else {
            let ghost items = msgs@;
            let r = StatMsg::Bat(msgs);
            let ghost want = Seq::new(ls.len(), |i: int| line_value(ls[i])->0);
            assert(r@ is Bat);
            let ghost b = r@->Bat_0;
            assert(b.len() == items.len());
            assert forall|k: int| 0 <= k < ls.len() implies b[k] == want[k] by {
                assert(b[k] == items[k]@);
                assert(line_value(ls[k]) == Some(items[k]@));
            }
            assert(b =~= want);
            Ok(r)
        }
    }
}

impl core::str::FromStr for StatMsg {
    type Err = ParseMessageError;

    fn from_str(s: &str) -> (r: Result<StatMsg, ParseMessageError>)
        ensures
            result_view(r) == payload_value(s@),
    {
        StatMsg::parse(s)
    }
}

} // verus!
