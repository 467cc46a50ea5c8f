//! The test case parameters, read from the `name=value|name=value` text that
//! the test runner hands each instance.
use vstd::prelude::*;
use crate::text::{
    chars_of, chars_eq, copy_chars, lemma_split_concat, lemma_split_nonempty, split_chars, split_spec, views_of,
};

verus! {

/// The parameters of one test instance.
#[derive(PartialEq, Eq, Structural, Debug, Clone, Copy)]
pub struct TestCaseParams {
    pub log: bool,
    pub log_id: usize,
    pub max_concurrent_send: usize,
    pub max_size_block: bool,
    pub segment_length: usize,
    pub sim_time: usize,
    /// ~2000000 bps ->  480p30
    ///
    /// ~3000000 bps -> 720p30
    ///
    /// ~4500000 bps -> 720p60
    ///
    /// ~6000000 bps -> 1080p60
    pub video_bitrate: usize,
    pub network_bandwidth: usize,
}

/// The parameters, in the order in which they are read.
#[derive(PartialEq, Eq, Structural, Debug, Clone, Copy)]
pub enum ParamField {
    Log,
    LogId,
    MaxConcurrentSend,
    MaxSizeBlock,
    SegmentLength,
    SimTime,
    VideoBitrate,
    NetworkBandwidth,
}

/// Why the parameter text could not be read.
#[derive(PartialEq, Eq, Structural, Debug, Clone, Copy)]
pub enum ParamsError {
    /// No item of the text names the parameter.
    Missing(ParamField),
    /// The value given for the parameter is not of its type.
    Invalid(ParamField),
}

/// The name under which a parameter is given.
pub open spec fn field_name(f: ParamField) -> Seq<char> {
    match f {
        ParamField::Log => seq!['l', 'o', 'g'],
        ParamField::LogId => seq!['l', 'o', 'g', '_', 'i', 'd'],
        ParamField::MaxConcurrentSend => seq![
            'm', 'a', 'x', '_', 'c', 'o', 'n', 'c', 'u', 'r', 'r', 'e', 'n', 't', '_', 's', 'e', 'n', 'd',
        ],
        ParamField::MaxSizeBlock => seq![
            'm', 'a', 'x', '_', 's', 'i', 'z', 'e', '_', 'b', 'l', 'o', 'c', 'k',
        ],
        ParamField::SegmentLength => seq![
            's', 'e', 'g', 'm', 'e', 'n', 't', '_', 'l', 'e', 'n', 'g', 't', 'h',
        ],
        ParamField::SimTime => seq!['s', 'i', 'm', '_', 't', 'i', 'm', 'e'],
        ParamField::VideoBitrate => seq![
            'v', 'i', 'd', 'e', 'o', '_', 'b', 'i', 't', 'r', 'a', 't', 'e',
        ],
        ParamField::NetworkBandwidth => seq![
            'n', 'e', 't', 'w', 'o', 'r', 'k', '_', 'b', 'a', 'n', 'd', 'w', 'i', 'd', 't', 'h',
        ],
    }
}

/// The name and value of one `name=value` item: the text before the first
/// `=` and the text between the first and the second `=` (or the end).
/// An item without `=` gives nothing.
pub open spec fn item_entry(item: Seq<char>) -> Option<(Seq<char>, Seq<char>)> {
    let parts = split_spec(item, '=');
    if parts.len() >= 2 {
        Some((parts[0], parts[1]))
    } else {
        None
    }
}

/// The value that the items give to `name`: the last item that names it
/// wins, as when the items are inserted into a map one after the other.
pub open spec fn lookup_spec(items: Seq<Seq<char>>, name: Seq<char>) -> Option<Seq<char>>
    decreases items.len(),
{
    if items.len() == 0 {
        None
    } else {
        match item_entry(items.last()) {
            Some(entry) if entry.0 == name => Some(entry.1),
            _ => lookup_spec(items.drop_last(), name),
        }
    }
}

/// The value that the parameter text gives to `name`.
pub open spec fn param_value(text: Seq<char>, name: Seq<char>) -> Option<Seq<char>> {
    lookup_spec(split_spec(text, '|'), name)
}

pub open spec fn is_digit(c: char) -> bool {
    '0' <= c && c <= '9'
}

pub open spec fn digit_value(c: char) -> nat {
    (c as nat - '0' as nat) as nat
}

/// The number that a string of decimal digits denotes.
pub open spec fn digits_value(s: Seq<char>) -> nat
    decreases s.len(),
{
    if s.len() == 0 {
        0
    } else {
        digits_value(s.drop_last()) * 10 + digit_value(s.last())
    }
}

/// The digits of an unsigned number as `usize::from_str` reads it: one
/// leading `+` may stand before them.
pub open spec fn unsigned_digits(s: Seq<char>) -> Seq<char> {
    if s.len() > 0 && s[0] == '+' {
        s.drop_first()
    } else {
        s
    }
}

/// What `usize::from_str` gives for `s`: at least one decimal digit, after an
/// optional `+`, and a value that fits.
pub open spec fn parse_usize_spec(s: Seq<char>) -> Option<usize> {
    let d = unsigned_digits(s);
    if d.len() > 0 && (forall|i: int| 0 <= i < d.len() ==> is_digit(#[trigger] d[i]))
        && digits_value(d) <= usize::MAX {
        Some(digits_value(d) as usize)
    } else {
        None
    }
}

/// What `bool::from_str` gives for `s`: exactly `true` or `false`.
pub open spec fn parse_bool_spec(s: Seq<char>) -> Option<bool> {
    if s == seq!['t', 'r', 'u', 'e'] {
        Some(true)
    } else if s == seq!['f', 'a', 'l', 's', 'e'] {
        Some(false)
    } else {
        None
    }
}

/// The decimal digit that stands for `d`, for `d` below 10.
pub open spec fn digit_char(d: nat) -> char {
    if d == 0 {
        '0'
    } else if d == 1 {
        '1'
    } else if d == 2 {
        '2'
    } else if d == 3 {
        '3'
    } else if d == 4 {
        '4'
    } else if d == 5 {
        '5'
    } else if d == 6 {
        '6'
    } else if d == 7 {
        '7'
    } else if d == 8 {
        '8'
    } else {
        '9'
    }
}

/// The decimal numeral of `n`, as `n.to_string()` writes it: no sign and no
/// leading zero, and `0` for zero.
pub open spec fn decimal(n: nat) -> Seq<char>
    decreases n,
{
    if n < 10 {
        seq![digit_char(n)]
    } else {
        decimal(n / 10).push(digit_char(n % 10))
    }
}

proof fn lemma_decimal(n: nat)
    ensures
        decimal(n).len() > 0,
        decimal(n)[0] != '+',
        forall|i: int| 0 <= i < decimal(n).len() ==> is_digit(#[trigger] decimal(n)[i]),
        digits_value(decimal(n)) == n,
    decreases n,
{
    if n < 10 {
        assert(decimal(n).drop_last() =~= Seq::<char>::empty());
        assert(decimal(n).last() == digit_char(n));
        assert(digit_value(digit_char(n)) == n);
        assert(digits_value(decimal(n).drop_last()) == 0);
        assert(digits_value(decimal(n)) == digits_value(decimal(n).drop_last()) * 10 + digit_value(decimal(n).last()));
    } else {
        lemma_decimal(n / 10);
        let d = decimal(n);
        assert(d.drop_last() =~= decimal(n / 10));
        assert(d[0] == decimal(n / 10)[0]);
        assert forall|i: int| 0 <= i < d.len() implies is_digit(#[trigger] d[i]) by {
            if i < d.len() - 1 {
                assert(d[i] == decimal(n / 10)[i]);
            }
        }
        assert(d.last() == digit_char(n % 10));
        assert(digit_value(digit_char(n % 10)) == n % 10);
        assert((n / 10) * 10 + n % 10 == n) by (nonlinear_arith);
        assert(digits_value(d) == digits_value(d.drop_last()) * 10 + digit_value(d.last()));
        assert(digits_value(d.drop_last()) == n / 10);
    }
}

/// Every number of `usize` written in decimal reads back as itself, with or
/// without a leading `+`.
pub proof fn law_decimal_reads_back(n: usize)
    ensures
        parse_usize_spec(decimal(n as nat)) == Some(n),
        parse_usize_spec(seq!['+'] + decimal(n as nat)) == Some(n),
{
    lemma_decimal(n as nat);
    let d = decimal(n as nat);
    assert(unsigned_digits(d) == d);
    assert((seq!['+'] + d).drop_first() =~= d);
    assert(unsigned_digits(seq!['+'] + d) == d);
}

/// The boolean parameter `f` of the text.
pub open spec fn bool_field(text: Seq<char>, f: ParamField) -> Result<bool, ParamsError> {
    match param_value(text, field_name(f)) {
        None => Err(ParamsError::Missing(f)),
        Some(v) => match parse_bool_spec(v) {
            None => Err(ParamsError::Invalid(f)),
            Some(b) => Ok(b),
        },
    }
}

/// The integer parameter `f` of the text.
pub open spec fn usize_field(text: Seq<char>, f: ParamField) -> Result<usize, ParamsError> {
    match param_value(text, field_name(f)) {
        None => Err(ParamsError::Missing(f)),
        Some(v) => match parse_usize_spec(v) {
            None => Err(ParamsError::Invalid(f)),
            Some(n) => Ok(n),
        },
    }
}

/// The parameters that the text gives, or the error of the first parameter,
/// in the order `log`, `log_id`, `max_concurrent_send`, `max_size_block`,
/// `segment_length`, `sim_time`, `video_bitrate`, `network_bandwidth`, that
/// is missing or is not of its type.
pub open spec fn instance_params_spec(text: Seq<char>) -> Result<TestCaseParams, ParamsError> {
    match bool_field(text, ParamField::Log) {
        Err(e) => Err(e),
        Ok(log) => match usize_field(text, ParamField::LogId) {
            Err(e) => Err(e),
            Ok(log_id) => match usize_field(text, ParamField::MaxConcurrentSend) {
                Err(e) => Err(e),
                Ok(max_concurrent_send) => match bool_field(text, ParamField::MaxSizeBlock) {
                    Err(e) => Err(e),
                    Ok(max_size_block) => match usize_field(text, ParamField::SegmentLength) {
                        Err(e) => Err(e),
                        Ok(segment_length) => match usize_field(text, ParamField::SimTime) {
                            Err(e) => Err(e),
                            Ok(sim_time) => match usize_field(text, ParamField::VideoBitrate) {
                                Err(e) => Err(e),
                                Ok(video_bitrate) => match usize_field(
                                    text,
                                    ParamField::NetworkBandwidth,
                                ) {
                                    Err(e) => Err(e),
                                    Ok(network_bandwidth) => Ok(
                                        TestCaseParams {
                                            log,
                                            log_id,
                                            max_concurrent_send,
                                            max_size_block,
                                            segment_length,
                                            sim_time,
                                            video_bitrate,
                                            network_bandwidth,
                                        },
                                    ),
                                },
                            },
                        },
                    },
                },
            },
        },
    }
}

/// An item that gives no parameter a value: one without `=` (an empty item
/// among them), or one whose name is not the name of a parameter.
pub open spec fn names_no_param(item: Seq<char>) -> bool {
    match item_entry(item) {
        None => true,
        Some(entry) => forall|f: ParamField| entry.0 != #[trigger] field_name(f),
    }
}

/// A lookup in two runs of items: the later run wins where it names `name`.
proof fn lemma_lookup_concat(xs: Seq<Seq<char>>, ys: Seq<Seq<char>>, name: Seq<char>)
    ensures
        lookup_spec(xs + ys, name) == match lookup_spec(ys, name) {
            Some(v) => Some(v),
            None => lookup_spec(xs, name),
        },
    decreases ys.len(),
{
    if ys.len() == 0 {
        assert(xs + ys =~= xs);
    } else {
        assert((xs + ys).drop_last() =~= xs + ys.drop_last());
        assert((xs + ys).last() == ys.last());
        lemma_lookup_concat(xs, ys.drop_last(), name);
    }
}

/// Items that name no parameter give no parameter a value.
proof fn lemma_lookup_unnamed(ys: Seq<Seq<char>>, f: ParamField)
    requires
        forall|i: int| 0 <= i < ys.len() ==> names_no_param(#[trigger] ys[i]),
    ensures
        lookup_spec(ys, field_name(f)) is None,
    decreases ys.len(),
{
    if ys.len() > 0 {
        assert(names_no_param(ys[ys.len() - 1]));
        lemma_lookup_unnamed(ys.drop_last(), f);
    }
}

/// Texts that give every parameter the same value give the same result.
proof fn lemma_same_values(a: Seq<char>, b: Seq<char>)
    requires
        forall|f: ParamField| param_value(a, field_name(f)) == #[trigger] param_value(b, field_name(f)),
    ensures
        instance_params_spec(a) == instance_params_spec(b),
{
    assert(param_value(a, field_name(ParamField::Log)) == param_value(b, field_name(ParamField::Log)));
    assert(param_value(a, field_name(ParamField::LogId)) == param_value(b, field_name(ParamField::LogId)));
    assert(param_value(a, field_name(ParamField::MaxConcurrentSend)) == param_value(
        b,
        field_name(ParamField::MaxConcurrentSend),
    ));
    assert(param_value(a, field_name(ParamField::MaxSizeBlock)) == param_value(
        b,
        field_name(ParamField::MaxSizeBlock),
    ));
    assert(param_value(a, field_name(ParamField::SegmentLength)) == param_value(
        b,
        field_name(ParamField::SegmentLength),
    ));
    assert(param_value(a, field_name(ParamField::SimTime)) == param_value(b, field_name(ParamField::SimTime)));
    assert(param_value(a, field_name(ParamField::VideoBitrate)) == param_value(
        b,
        field_name(ParamField::VideoBitrate),
    ));
    assert(param_value(a, field_name(ParamField::NetworkBandwidth)) == param_value(
        b,
        field_name(ParamField::NetworkBandwidth),
    ));
}

/// Items that give no parameter a value (empty items, items without `=`,
/// items whose name is not the name of a parameter) change nothing that is
/// read, whether they come after the other items or before them.
pub proof fn law_unknown_items_ignored(s: Seq<char>, t: Seq<char>)
    requires
        forall|i: int| 0 <= i < split_spec(t, '|').len() ==> names_no_param(#[trigger] split_spec(t, '|')[i]),
    ensures
        instance_params_spec(s + seq!['|'] + t) == instance_params_spec(s),
        instance_params_spec(t + seq!['|'] + s) == instance_params_spec(s),
{
    let items_s = split_spec(s, '|');
    let items_t = split_spec(t, '|');
    lemma_split_concat(s, t, '|');
    lemma_split_concat(t, s, '|');
    assert forall|f: ParamField| param_value(s + seq!['|'] + t, field_name(f)) == #[trigger] param_value(
        s,
        field_name(f),
    ) by {
        lemma_lookup_unnamed(items_t, f);
        lemma_lookup_concat(items_s, items_t, field_name(f));
    }
    assert forall|f: ParamField| param_value(t + seq!['|'] + s, field_name(f)) == #[trigger] param_value(
        s,
        field_name(f),
    ) by {
        lemma_lookup_unnamed(items_t, f);
        lemma_lookup_concat(items_t, items_s, field_name(f));
    }
    lemma_same_values(s + seq!['|'] + t, s);
    lemma_same_values(t + seq!['|'] + s, s);
}

/// The name of a parameter, as characters.
fn field_name_chars(f: ParamField) -> (out: Vec<char>)
    ensures
        out@ == field_name(f),
{
    let out = match f {
        ParamField::Log => vec!['l', 'o', 'g'],
        ParamField::LogId => vec!['l', 'o', 'g', '_', 'i', 'd'],
        ParamField::MaxConcurrentSend => vec![
            'm', 'a', 'x', '_', 'c', 'o', 'n', 'c', 'u', 'r', 'r', 'e', 'n', 't', '_', 's', 'e', 'n', 'd',
        ],
        ParamField::MaxSizeBlock => vec![
            'm', 'a', 'x', '_', 's', 'i', 'z', 'e', '_', 'b', 'l', 'o', 'c', 'k',
        ],
        ParamField::SegmentLength => vec![
            's', 'e', 'g', 'm', 'e', 'n', 't', '_', 'l', 'e', 'n', 'g', 't', 'h',
        ],
        ParamField::SimTime => vec!['s', 'i', 'm', '_', 't', 'i', 'm', 'e'],
        ParamField::VideoBitrate => vec![
            'v', 'i', 'd', 'e', 'o', '_', 'b', 'i', 't', 'r', 'a', 't', 'e',
        ],
        ParamField::NetworkBandwidth => vec![
            'n', 'e', 't', 'w', 'o', 'r', 'k', '_', 'b', 'a', 'n', 'd', 'w', 'i', 'd', 't', 'h',
        ],
    };
    assert(out@ =~= field_name(f));
    out
}

/// The value that `items` give to `name`, the last naming item winning.
pub fn lookup_value(items: &Vec<Vec<char>>, name: &Vec<char>) -> (out: Option<Vec<char>>)
    ensures
        match out {
            Some(v) => lookup_spec(views_of(items@), name@) == Some(v@),
            None => lookup_spec(views_of(items@), name@) is None,
        },
{
    let mut found: Option<Vec<char>> = None;
    let mut k: usize = 0;
    while k < items.len()
        invariant
            k <= items.len(),
            match found {
                Some(v) => lookup_spec(views_of(items@).take(k as int), name@) == Some(v@),
                None => lookup_spec(views_of(items@).take(k as int), name@) is None,
            },
        decreases items.len() - k,
    {
        let ghost prefix = views_of(items@).take(k + 1);
        proof {
            assert(prefix.drop_last() =~= views_of(items@).take(k as int));
            assert(prefix.last() == items@[k as int]@);
        }
        let parts = split_chars(&items[k], '=');
        proof {
            lemma_split_nonempty(items@[k as int]@, '=');
        }
        if parts.len() >= 2 && chars_eq(&parts[0], name) {
            found = Some(copy_chars(&parts[1]));
        }
        k = k + 1;
    }
    proof {
        assert(views_of(items@).take(items.len() as int) =~= views_of(items@));
    }
    found
}

/// `digits_value` of a prefix never exceeds that of the whole.
proof fn lemma_digits_value_prefix(s: Seq<char>, j: int)
    requires
        0 <= j <= s.len(),
    ensures
        digits_value(s.take(j)) <= digits_value(s),
    decreases s.len(),
{
    if j < s.len() {
        assert(s.drop_last().take(j) =~= s.take(j));
        lemma_digits_value_prefix(s.drop_last(), j);
    } else {
        assert(s.take(j) =~= s);
    }
}

/// Reads a boolean as `bool::from_str` does.
pub fn parse_bool_chars(v: &Vec<char>) -> (out: Option<bool>)
    ensures
        out == parse_bool_spec(v@),
{
    let t = vec!['t', 'r', 'u', 'e'];
    let f = vec!['f', 'a', 'l', 's', 'e'];
    assert(t@ =~= seq!['t', 'r', 'u', 'e']);
    assert(f@ =~= seq!['f', 'a', 'l', 's', 'e']);
    if chars_eq(v, &t) {
        Some(true)
    } else if chars_eq(v, &f) {
        Some(false)
    } else {
        None
    }
}

/// Reads an unsigned integer as `usize::from_str` does.
pub fn parse_usize_chars(v: &Vec<char>) -> (out: Option<usize>)
    ensures
        out == parse_usize_spec(v@),
{
    let start: usize = if v.len() > 0 && v[0] == '+' { 1 } else { 0 };
    let ghost d = unsigned_digits(v@);
    proof {
        if start == 1 {
            assert(d =~= v@.subrange(1, v@.len() as int));
        } else {
            assert(d =~= v@);
        }
    }
    if start == v.len() {
        return None;
    }
    let mut value: usize = 0;
    let mut i: usize = start;
    while i < v.len()
        invariant
            start <= i <= v.len(),
            start < v.len(),
            d == unsigned_digits(v@),
            d.len() == v.len() - start,
            forall|k: int| 0 <= k < d.len() ==> d[k] == v@[k + start],
            forall|k: int| 0 <= k < i - start ==> is_digit(#[trigger] d[k]),
            value == digits_value(d.take(i - start)),
        decreases v.len() - i,
    {
        let c = v[i];
        if !(c >= '0' && c <= '9') {
            assert(!is_digit(d[i - start]));
            return None;
        }
        let digit: usize = (c as u32 - '0' as u32) as usize;
        let ghost next = d.take(i - start + 1);
        proof {
            assert(next.drop_last() =~= d.take(i - start));
            assert(next.last() == c);
        }
        match value.checked_mul(10) {
            None => {
                proof {
                    lemma_digits_value_prefix(d, i - start + 1);
                }
                return None;
            },
            Some(tens) => match tens.checked_add(digit) {
                None => {
                    proof {
                        lemma_digits_value_prefix(d, i - start + 1);
                    }
                    return None;
                },
                Some(n) => {
                    value = n;
                },
            },
        }
        i = i + 1;
    }
    proof {
        assert(d.take(d.len() as int) =~= d);
    }
    Some(value)
}

/// The boolean parameter `f` of the text whose `|`-separated items are `items`.
fn bool_param(items: &Vec<Vec<char>>, f: ParamField, Ghost(text): Ghost<Seq<char>>) -> (out: Result<bool, ParamsError>)
    requires
        views_of(items@) == split_spec(text, '|'),
    ensures
        out == bool_field(text, f),
{
    let name = field_name_chars(f);
    match lookup_value(items, &name) {
        None => Err(ParamsError::Missing(f)),
        Some(v) => match parse_bool_chars(&v) {
            None => Err(ParamsError::Invalid(f)),
            Some(b) => Ok(b),
        },
    }
}

/// The integer parameter `f` of the text whose `|`-separated items are `items`.
fn usize_param(items: &Vec<Vec<char>>, f: ParamField, Ghost(text): Ghost<Seq<char>>) -> (out: Result<usize, ParamsError>)
    requires
        views_of(items@) == split_spec(text, '|'),
    ensures
        out == usize_field(text, f),
{
    let name = field_name_chars(f);
    match lookup_value(items, &name) {
        None => Err(ParamsError::Missing(f)),
        Some(v) => match parse_usize_chars(&v) {
            None => Err(ParamsError::Invalid(f)),
            Some(n) => Ok(n),
        },
    }
}

/// Reads the parameters from `name=value` items separated by `|`, and says
/// which parameter is missing or malformed where that is so.
pub fn try_custom_instance_params(params: &str) -> (out: Result<TestCaseParams, ParamsError>)
    ensures
        out == instance_params_spec(params@),
{
    let text = chars_of(params);
    let items = split_chars(&text, '|');
    let ghost t = params@;
    let log = match bool_param(&items, ParamField::Log, Ghost(t)) {
        Err(e) => return Err(e),
        Ok(b) => b,
    };
    let log_id = match usize_param(&items, ParamField::LogId, Ghost(t)) {
        Err(e) => return Err(e),
        Ok(n) => n,
    };
    let max_concurrent_send = match usize_param(&items, ParamField::MaxConcurrentSend, Ghost(t)) {
        Err(e) => return Err(e),
        Ok(n) => n,
    };
    let max_size_block = match bool_param(&items, ParamField::MaxSizeBlock, Ghost(t)) {
        Err(e) => return Err(e),
        Ok(b) => b,
    };
    let segment_length = match usize_param(&items, ParamField::SegmentLength, Ghost(t)) {
        Err(e) => return Err(e),
        Ok(n) => n,
    };
    let sim_time = match usize_param(&items, ParamField::SimTime, Ghost(t)) {
        Err(e) => return Err(e),
        Ok(n) => n,
    };
    let video_bitrate = match usize_param(&items, ParamField::VideoBitrate, Ghost(t)) {
        Err(e) => return Err(e),
        Ok(n) => n,
    };
    let network_bandwidth = match usize_param(&items, ParamField::NetworkBandwidth, Ghost(t)) {
        Err(e) => return Err(e),
        Ok(n) => n,
    };
    Ok(
        TestCaseParams {
            log,
            log_id,
            max_concurrent_send,
            max_size_block,
            segment_length,
            sim_time,
            video_bitrate,
            network_bandwidth,
        },
    )
}

/// Reads the parameters from `name=value` items separated by `|`; every
/// parameter must be present and of its type.
pub fn custom_instance_params(params: &str) -> (out: TestCaseParams)
    requires
        instance_params_spec(params@) is Ok,
    ensures
        instance_params_spec(params@) == Ok::<TestCaseParams, ParamsError>(out),
{
    match try_custom_instance_params(params) {
        Ok(p) => p,
        Err(_) => {
            proof {
                assert(false);
            }
            TestCaseParams {
                log: false,
                log_id: 0,
                max_concurrent_send: 0,
                max_size_block: false,
                segment_length: 0,
                sim_time: 0,
                video_bitrate: 0,
                network_bandwidth: 0,
            }
        },
    }
}

} // verus!
