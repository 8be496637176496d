//! The benchmark identifier grammar: `<group>/<name>/<hash>-<timestamp>-<params>`,
//! where the timestamp spans four hyphen-separated tokens and has its colons
//! written as underscores.
use vstd::prelude::*;

use crate::text::{
    chars_of, concat_str, copy_range, count_char, count_of, find_nth, lemma_count_concat, lemma_nth_pos_after,
    lemma_nth_pos_order, lemma_nth_pos_some, nth_pos, string_of,
};

verus! {

/// Separator between the three top-level segments of an identifier.
pub const SEGMENT_SEP: char = '/';

/// Separator between the commit hash, the timestamp tokens and the parameters.
pub const TOKEN_SEP: char = '-';

/// Number of hyphen-separated tokens that make up the encoded timestamp.
pub const TIMESTAMP_TOKENS: usize = 4;

/// Number of hyphens inside the encoded timestamp: one fewer than its tokens.
pub const TIMESTAMP_HYPHENS: usize = TIMESTAMP_TOKENS - 1;

/// Opening of the message of an `InvalidTimestamp` error, before the parser's reason.
pub const TIMESTAMP_ERROR: &'static str = "Failed to parse string into `DateTime`: ";

/// An instant in UTC: whole seconds since the Unix epoch and the nanoseconds
/// past that second.
#[derive(Clone, Copy, Debug, PartialEq, Eq, Structural, PartialOrd, Ord, Hash)]
pub struct UtcTimestamp {
    pub secs: i64,
    pub nanos: u32,
}

impl UtcTimestamp {
    pub open spec fn instant(self) -> (int, int) {
        (self.secs as int, self.nanos as int)
    }
}

/// Parsing an RFC 3339 text (with a numeric offset): the UTC instant it
/// denotes, or the parser's reason for refusing it.
pub uninterp spec fn rfc3339_parse(s: Seq<char>) -> Result<(int, int), Seq<char>>;

/// Relies on chrono's `DateTime::parse_from_rfc3339`, followed by
/// `with_timezone(&Utc)`, `timestamp` and `timestamp_subsec_nanos`, or on the
/// `Display` text of its `ParseError`: both depend on the text alone.
#[verifier::external_body]
fn parse_rfc3339(s: &str) -> (r: Result<UtcTimestamp, String>)
    ensures
        r matches Ok(t) ==> rfc3339_parse(s@) is Ok && rfc3339_parse(s@)->Ok_0 == t.instant(),
        r matches Err(m) ==> rfc3339_parse(s@) is Err && rfc3339_parse(s@)->Err_0 == m@,
{
    match chrono::DateTime::parse_from_rfc3339(s) {
        Ok(dt) => {
            let utc = dt.with_timezone(&chrono::Utc);
            Ok(UtcTimestamp { secs: utc.timestamp(), nanos: utc.timestamp_subsec_nanos() })
        },
        Err(e) => Err(e.to_string()),
    }
}

/// What went wrong when parsing an identifier.
#[derive(Debug, PartialEq, Eq)]
pub enum GrammarError {
    /// The identifier does not have exactly three `/`-separated segments.
    WrongArity,
    /// The third segment has no commit hash, or fewer than four timestamp tokens.
    MalformedParams,
    /// The reconstructed timestamp is not RFC 3339; carries a message with the
    /// parser's reason.
    InvalidTimestamp(String),
}

/// Mathematical form of a [`GrammarError`].
pub enum GrammarFault {
    WrongArity,
    MalformedParams,
    InvalidTimestamp(Seq<char>),
}

impl GrammarError {
    pub open spec fn fault(&self) -> GrammarFault {
        match self {
            GrammarError::WrongArity => GrammarFault::WrongArity,
            GrammarError::MalformedParams => GrammarFault::MalformedParams,
            GrammarError::InvalidTimestamp(m) => GrammarFault::InvalidTimestamp(m@),
        }
    }
}

impl GrammarError {
    pub open spec fn message_text(&self) -> Seq<char> {
        match self {
            GrammarError::WrongArity => "Expected 3 bench ID elements"@,
            GrammarError::MalformedParams => "Invalid format for bench params"@,
            GrammarError::InvalidTimestamp(m) => m@,
        }
    }

    /// The error as text.
    pub fn message(&self) -> (r: String)
        ensures
            r@ == self.message_text(),
    {
        match self {
            GrammarError::WrongArity => "Expected 3 bench ID elements".to_owned(),
            GrammarError::MalformedParams => "Invalid format for bench params".to_owned(),
            GrammarError::InvalidTimestamp(m) => m.clone(),
        }
    }
}

/// The third segment of an identifier: `<hash>-<timestamp>-<params>`.
#[derive(Debug, PartialEq)]
pub struct BenchParams {
    pub commit_hash: String,
    pub commit_timestamp: UtcTimestamp,
    pub params: String,
}

/// Mathematical form of [`BenchParams`]: hash, instant, parameters.
pub type ParamsView = (Seq<char>, (int, int), Seq<char>);

impl BenchParams {
    pub open spec fn view(&self) -> ParamsView {
        (self.commit_hash@, self.commit_timestamp.instant(), self.params@)
    }
}

/// A parsed identifier: `<group>/<name>/<params>`.
#[derive(Debug, PartialEq)]
pub struct BenchId {
    pub group_name: String,
    pub bench_name: String,
    pub params: BenchParams,
}

/// Mathematical form of [`BenchId`]: group, name and parameters.
pub type IdView = (Seq<char>, Seq<char>, ParamsView);

impl BenchId {
    pub open spec fn view(&self) -> IdView {
        (self.group_name@, self.bench_name@, self.params.view())
    }
}

/// The timestamp text with each `_` turned back into `:`.
pub open spec fn decode_time(t: Seq<char>) -> Seq<char> {
    t.map_values(|c: char| if c == '_' { ':' } else { c })
}

/// Splits `<hash>-<rest>` at the first hyphen, then `rest` after its fourth
/// hyphen-terminated token: hash, raw timestamp text, parameter string.
/// A `rest` of exactly four tokens, the last not ending in a hyphen, is all
/// timestamp, with empty parameters.
pub open spec fn params_split(v: Seq<char>) -> Option<(Seq<char>, Seq<char>, Seq<char>)> {
    match nth_pos(v, TOKEN_SEP, 0) {
        None => None,
        Some(p) => {
            let rest = v.subrange(p + 1, v.len() as int);
            match nth_pos(rest, TOKEN_SEP, TIMESTAMP_HYPHENS as nat) {
                Some(q) => Some(
                    (v.subrange(0, p), rest.subrange(0, q), rest.subrange(q + 1, rest.len() as int)),
                ),
                None => if count_of(rest, TOKEN_SEP) == TIMESTAMP_HYPHENS && rest.len() > 0 && rest.last()
                    != TOKEN_SEP {
                    Some((v.subrange(0, p), rest, Seq::empty()))
                } else {
                    None
                },
            }
        },
    }
}

/// The result of parsing the third segment of an identifier.
pub open spec fn params_spec(v: Seq<char>) -> Result<ParamsView, GrammarFault> {
    match params_split(v) {
        None => Err(GrammarFault::MalformedParams),
        Some((h, d, p)) => match rfc3339_parse(decode_time(d)) {
            Err(m) => Err(GrammarFault::InvalidTimestamp(TIMESTAMP_ERROR@ + m)),
            Ok(t) => Ok((h, t, p)),
        },
    }
}

/// The result of parsing a whole identifier.
pub open spec fn bench_id_spec(s: Seq<char>) -> Result<IdView, GrammarFault> {
    if count_of(s, SEGMENT_SEP) != 2 {
        Err(GrammarFault::WrongArity)
    } else {
        let first = nth_pos(s, SEGMENT_SEP, 0)->0;
        let second = nth_pos(s, SEGMENT_SEP, 1)->0;
        match params_spec(s.subrange(second + 1, s.len() as int)) {
            Err(e) => Err(e),
            Ok(pv) => Ok((s.subrange(0, first), s.subrange(first + 1, second), pv)),
        }
    }
}

/// The timestamp text with each `:` written as `_`, as identifiers carry it.
pub open spec fn encode_time(t: Seq<char>) -> Seq<char> {
    t.map_values(|c: char| if c == ':' { '_' } else { c })
}

/// The identifier that a benchmark harness writes for these parts.
pub open spec fn encode_id(
    group: Seq<char>,
    name: Seq<char>,
    hash: Seq<char>,
    time_text: Seq<char>,
    params: Seq<char>,
) -> Seq<char> {
    group + seq![SEGMENT_SEP] + name + seq![SEGMENT_SEP] + hash + seq![TOKEN_SEP] + encode_time(
        time_text,
    ) + seq![TOKEN_SEP] + params
}

proof fn lemma_count_encode_time(t: Seq<char>, c: char)
    requires
        c != ':',
        c != '_',
    ensures
        count_of(encode_time(t), c) == count_of(t, c),
    decreases t.len(),
{
    if t.len() > 0 {
        assert(encode_time(t).drop_last() =~= encode_time(t.drop_last()));
        lemma_count_encode_time(t.drop_last(), c);
    }
}

proof fn lemma_count_single(x: char, c: char)
    ensures
        count_of(seq![x], c) == if x == c {
            1nat
        } else {
            0nat
        },
{
    assert(seq![x].drop_last() =~= Seq::<char>::empty());
    assert(count_of(Seq::<char>::empty(), c) == 0);
    assert(seq![x].last() == x);
}

/// Parsing undoes the encoding: an identifier built from a group, a name, a
/// commit hash, an RFC 3339 timestamp text (with three hyphens and no
/// underscore) and a parameter string, none holding `/` and the hash holding no
/// hyphen, parses back to exactly those parts, the timestamp as its UTC instant.
#[verifier::rlimit(60)]
pub proof fn lemma_parse_inverts_encode(
    group: Seq<char>,
    name: Seq<char>,
    hash: Seq<char>,
    time_text: Seq<char>,
    params: Seq<char>,
)
    requires
        count_of(group, SEGMENT_SEP) == 0,
        count_of(name, SEGMENT_SEP) == 0,
        count_of(hash, SEGMENT_SEP) == 0,
        count_of(time_text, SEGMENT_SEP) == 0,
        count_of(params, SEGMENT_SEP) == 0,
        count_of(hash, TOKEN_SEP) == 0,
        count_of(time_text, TOKEN_SEP) == TIMESTAMP_HYPHENS,
        forall|i: int| 0 <= i < time_text.len() ==> time_text[i] != '_',
        rfc3339_parse(time_text) is Ok,
    ensures
        bench_id_spec(encode_id(group, name, hash, time_text, params)) == Ok::<
            IdView,
            GrammarFault,
        >((group, name, (hash, rfc3339_parse(time_text)->Ok_0, params))),
{
    let e = encode_time(time_text);
    let s = encode_id(group, name, hash, time_text, params);
    let third = hash + seq![TOKEN_SEP] + e + seq![TOKEN_SEP] + params;
    let rest = e + seq![TOKEN_SEP] + params;
    lemma_count_encode_time(time_text, SEGMENT_SEP);
    lemma_count_encode_time(time_text, TOKEN_SEP);
    lemma_count_single(SEGMENT_SEP, SEGMENT_SEP);
    lemma_count_single(TOKEN_SEP, SEGMENT_SEP);
    lemma_count_single(TOKEN_SEP, TOKEN_SEP);
    // the three segments
    lemma_count_concat(e, seq![TOKEN_SEP], SEGMENT_SEP);
    lemma_count_concat(e + seq![TOKEN_SEP], params, SEGMENT_SEP);
    lemma_count_concat(hash, seq![TOKEN_SEP], SEGMENT_SEP);
    lemma_count_concat(hash + seq![TOKEN_SEP], rest, SEGMENT_SEP);
    assert(third =~= (hash + seq![TOKEN_SEP]) + rest);
    lemma_count_concat(group, seq![SEGMENT_SEP], SEGMENT_SEP);
    lemma_count_concat(group + seq![SEGMENT_SEP], name, SEGMENT_SEP);
    let head = group + seq![SEGMENT_SEP] + name;
    lemma_count_concat(head, seq![SEGMENT_SEP], SEGMENT_SEP);
    lemma_count_concat(head + seq![SEGMENT_SEP], third, SEGMENT_SEP);
    assert(s =~= head + seq![SEGMENT_SEP] + third);
    assert(count_of(s, SEGMENT_SEP) == 2);
    assert(s =~= group.push(SEGMENT_SEP) + (name + seq![SEGMENT_SEP] + third));
    lemma_nth_pos_after(group, name + seq![SEGMENT_SEP] + third, SEGMENT_SEP);
    assert(s =~= head.push(SEGMENT_SEP) + third);
    lemma_nth_pos_after(head, third, SEGMENT_SEP);
    let first = group.len() as int;
    let second = head.len() as int;
    assert(s.subrange(0, first) =~= group);
    assert(s.subrange(first + 1, second) =~= name);
    assert(s.subrange(second + 1, s.len() as int) =~= third);
    // the third segment
    assert(third =~= hash.push(TOKEN_SEP) + rest);
    lemma_nth_pos_after(hash, rest, TOKEN_SEP);
    assert(third.subrange(0, hash.len() as int) =~= hash);
    assert(third.subrange(hash.len() + 1int, third.len() as int) =~= rest);
    assert(rest =~= e.push(TOKEN_SEP) + params);
    lemma_nth_pos_after(e, params, TOKEN_SEP);
    assert(rest.subrange(0, e.len() as int) =~= e);
    assert(rest.subrange(e.len() + 1int, rest.len() as int) =~= params);
    assert(decode_time(e) =~= time_text);
}

/// An identifier that does not have exactly two `/` (so not exactly three
/// segments) is refused with `WrongArity`, whatever else it holds.
pub proof fn lemma_wrong_arity(s: Seq<char>)
    requires
        count_of(s, SEGMENT_SEP) != 2,
    ensures
        bench_id_spec(s) == Err::<IdView, GrammarFault>(GrammarFault::WrongArity),
{
}

/// Replaces each `_` by `:`.
fn decode_time_exec(v: &Vec<char>) -> (r: Vec<char>)
    ensures
        r@ == decode_time(v@),
{
    let mut r: Vec<char> = Vec::new();
    let mut i: usize = 0;
    while i < v.len()
        invariant
            i <= v.len(),
            r@ == decode_time(v@.subrange(0, i as int)),
        decreases v.len() - i,
    {
        let c = v[i];
        if c == '_' {
            r.push(':');
        } else {
            r.push(c);
        }
        i = i + 1;
        assert(r@ =~= decode_time(v@.subrange(0, i as int)));
    }
    assert(v@.subrange(0, i as int) =~= v@);
    r
}

/// Parses `<hash>-<timestamp>-<params>` given as characters.
pub fn parse_params(v: &Vec<char>) -> (r: Result<BenchParams, GrammarError>)
    ensures
        r matches Ok(bp) ==> params_spec(v@) == Ok::<ParamsView, GrammarFault>(bp.view()),
        r matches Err(e) ==> params_spec(v@) == Err::<ParamsView, GrammarFault>(e.fault()),
{
    let p = match find_nth(v, TOKEN_SEP, 0) {
        None => return Err(GrammarError::MalformedParams),
        Some(p) => p,
    };
    assert(p < v.len());
    let rest = copy_range(v, p + 1, v.len());
    let (date, params) = match find_nth(&rest, TOKEN_SEP, TIMESTAMP_HYPHENS) {
        Some(q) => (copy_range(&rest, 0, q), copy_range(&rest, q + 1, rest.len())),
        None => {
            let n = count_char(&rest, TOKEN_SEP);
            if n == TIMESTAMP_HYPHENS && rest.len() > 0 && rest[rest.len() - 1] != TOKEN_SEP {
                let rl = rest.len();
                (copy_range(&rest, 0, rl), Vec::new())
            } else {
                return Err(GrammarError::MalformedParams);
            }
        },
    };
    assert(params_split(v@) == Some((v@.subrange(0, p as int), date@, params@))) by {
        let rs = v@.subrange(p + 1, v@.len() as int);
        assert(rest@ == rs);
        if nth_pos(rs, TOKEN_SEP, TIMESTAMP_HYPHENS as nat) is None {
            assert(rest@.subrange(0, rest@.len() as int) =~= rest@);
            assert(params@ =~= Seq::<char>::empty());
        }
    }
    let decoded = decode_time_exec(&date);
    let text = string_of(&decoded);
    match parse_rfc3339(text.as_str()) {
        Ok(t) => Ok(
            BenchParams {
                commit_hash: string_of(&copy_range(v, 0, p)),
                commit_timestamp: t,
                params: string_of(&params),
            },
        ),
        Err(reason) => Err(GrammarError::InvalidTimestamp(concat_str(TIMESTAMP_ERROR, reason.as_str()))),
    }
}

impl BenchParams {
    /// Parses `<hash>-<timestamp>-<params>`, e.g. `dd2a8e6-2024-02-20T22_48_21-05_00-rc=100`.
    pub fn try_from(value: &str) -> (r: Result<BenchParams, GrammarError>)
        ensures
            r matches Ok(bp) ==> params_spec(value@) == Ok::<ParamsView, GrammarFault>(bp.view()),
            r matches Err(e) ==> params_spec(value@) == Err::<ParamsView, GrammarFault>(e.fault()),
    {
        parse_params(&chars_of(value))
    }
}

impl BenchId {
    /// Parses `<group>/<name>/<hash>-<timestamp>-<params>`.
    pub fn parse(s: &str) -> (r: Result<BenchId, GrammarError>)
        ensures
            r matches Ok(id) ==> bench_id_spec(s@) == Ok::<IdView, GrammarFault>(id.view()),
            r matches Err(e) ==> bench_id_spec(s@) == Err::<IdView, GrammarFault>(e.fault()),
    {
        let v = chars_of(s);
        if count_char(&v, SEGMENT_SEP) != 2 {
            return Err(GrammarError::WrongArity);
        }
        proof {
            lemma_nth_pos_some(v@, SEGMENT_SEP, 0);
            lemma_nth_pos_some(v@, SEGMENT_SEP, 1);
        }
        let first = match find_nth(&v, SEGMENT_SEP, 0) {
            Some(i) => i,
            None => return Err(GrammarError::WrongArity),
        };
        let second = match find_nth(&v, SEGMENT_SEP, 1) {
            Some(i) => i,
            None => return Err(GrammarError::WrongArity),
        };
        proof {
            lemma_nth_pos_order(v@, SEGMENT_SEP, 0, 1);
        }
        let params = match parse_params(&copy_range(&v, second + 1, v.len())) {
            Ok(bp) => bp,
            Err(e) => return Err(e),
        };
        Ok(
            BenchId {
                group_name: string_of(&copy_range(&v, 0, first)),
                bench_name: string_of(&copy_range(&v, first + 1, second)),
                params,
            },
        )
    }
}

} // verus!
