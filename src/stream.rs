//! The resilient stream parser: reads a buffer of concatenated JSON values,
//! one benchmark record each, and keeps going past values that are valid JSON
//! but not records. A syntax error ends the stream.
use vstd::prelude::*;
use vstd::string::StringSliceAdditionalSpecFns;

use crate::bench_id::{bench_id_spec, BenchId, GrammarError, GrammarFault};
use crate::plot::data_view;
use crate::text::concat_str;
use crate::record::{BenchData, BenchResult, DataView};

verus! {

#[verifier::external_type_specification]
#[verifier::external_body]
pub struct ExValue(serde_json::Value);

#[verifier::external_type_specification]
#[verifier::external_body]
pub struct ExJsonError(serde_json::Error);

/// The bytes of `b` from `start` on.
pub open spec fn rest_of(b: Seq<u8>, start: int) -> Seq<u8> {
    b.subrange(start, b.len() as int)
}

/// The whitespace that JSON skips between values.
pub open spec fn is_json_space(c: u8) -> bool {
    c == 0x20 || c == 0x0A || c == 0x09 || c == 0x0D
}

/// Nothing but JSON whitespace.
pub open spec fn is_blank(b: Seq<u8>) -> bool {
    forall|i: int| 0 <= i < b.len() ==> is_json_space(b[i])
}

/// Reading one JSON value from the start of `b` (after whitespace): the number
/// of bytes up to its end, or `None` at a syntax error.
pub uninterp spec fn json_scan(b: Seq<u8>) -> Option<nat>;

/// The JSON text of the value at the start of `b`, as serde_json writes it.
pub uninterp spec fn json_value_text(b: Seq<u8>) -> Seq<char>;

/// The message of the syntax error met reading a value from the start of `b`.
pub uninterp spec fn json_error_text(b: Seq<u8>) -> Seq<char>;

/// The text of member `key` of the JSON value at the start of `b`, where that
/// value is an object whose member `key` is a string.
pub uninterp spec fn json_member_text(b: Seq<u8>, key: Seq<char>) -> Option<Seq<char>>;

/// The bits of the double that member `inner` of member `outer` of the JSON
/// value at the start of `b` denotes, where there is such a number.
pub uninterp spec fn json_member_bits(b: Seq<u8>, outer: Seq<char>, inner: Seq<char>) -> Option<u64>;

/// Member of a record holding its identifier.
pub const ID_KEY: &'static str = "id";

/// Member of a record holding its typical result.
pub const RESULT_KEY: &'static str = "typical";

/// Member of the typical result holding the measured statistic.
pub const ESTIMATE_KEY: &'static str = "estimate";

pub open spec fn opt_text(o: Option<String>) -> Option<Seq<char>> {
    match o {
        Some(s) => Some(s@),
        None => None,
    }
}

/// Relies on serde_json's `Deserializer::from_slice(..).into_iter::<Value>()`,
/// `next` and `byte_offset` on `json[start..]`, and on the `Display` impls of
/// `Value` and `Error`. `None` exactly where only whitespace is left
/// (`parse_whitespace`); else the value, the bytes up to its end (at least
/// one, no more than are left) and its JSON text; or the syntax error with its
/// message. Each depends on the bytes alone.
#[verifier::external_body]
fn scan_value(json: &[u8], start: usize) -> (r: Option<
    Result<(serde_json::Value, usize, String), (serde_json::Error, String)>,
>)
    requires
        start <= json@.len(),
    ensures
        r is None <==> is_blank(rest_of(json@, start as int)),
        r matches Some(Err((_, t))) ==> json_scan(rest_of(json@, start as int)) is None && t@
            == json_error_text(rest_of(json@, start as int)),
        r matches Some(Ok((_, n, t))) ==> json_scan(rest_of(json@, start as int)) == Some(n as nat)
            && 0 < n <= json@.len() - start && t@ == json_value_text(rest_of(json@, start as int)),
{
    let mut values = serde_json::Deserializer::from_slice(&json[start..]).into_iter::<serde_json::Value>();
    match values.next() {
        None => None,
        Some(Ok(value)) => {
            let text = value.to_string();
            Some(Ok((value, values.byte_offset(), text)))
        },
        Some(Err(e)) => {
            let text = e.to_string();
            Some(Err((e, text)))
        },
    }
}

/// Relies on serde_json's `from_slice` stream (`next`) on `json[start..]`, then
/// `Value::get(key)` and `Value::as_str`: the string member `key` of the value
/// read, which depends on the bytes and the key alone.
#[verifier::external_body]
fn member_text(json: &[u8], start: usize, key: &str) -> (r: Option<String>)
    requires
        start <= json@.len(),
    ensures
        opt_text(r) == json_member_text(rest_of(json@, start as int), key@),
{
    let value = serde_json::Deserializer::from_slice(&json[start..]).into_iter::<serde_json::Value>().next()?.ok()?;
    value.get(key)?.as_str().map(str::to_string)
}

/// Relies on serde_json's `from_slice` stream (`next`) on `json[start..]`, then
/// `Value::get(outer)`, `Value::get(inner)` and `Value::as_f64`, handed on as
/// bits: the number member `inner` of member `outer` of the value read, which
/// depends on the bytes and the keys alone.
#[verifier::external_body]
fn member_bits(json: &[u8], start: usize, outer: &str, inner: &str) -> (r: Option<u64>)
    requires
        start <= json@.len(),
    ensures
        r == json_member_bits(rest_of(json@, start as int), outer@, inner@),
{
    let value = serde_json::Deserializer::from_slice(&json[start..]).into_iter::<serde_json::Value>().next()?.ok()?;
    value.get(outer)?.get(inner)?.as_f64().map(|f| f.to_bits())
}

/// Why a JSON value is not a benchmark record.
#[derive(Debug, PartialEq, Eq)]
pub enum SchemaError {
    /// No `id` member holding a string.
    MissingId,
    /// No `typical.estimate` member holding a number.
    MissingEstimate,
    /// The `id` does not follow the identifier grammar.
    Grammar(GrammarError),
}

/// The kind of a [`SchemaError`].
pub enum SchemaFault {
    MissingId,
    MissingEstimate,
    Grammar(GrammarFault),
}

impl SchemaError {
    pub open spec fn fault(&self) -> SchemaFault {
        match self {
            SchemaError::MissingId => SchemaFault::MissingId,
            SchemaError::MissingEstimate => SchemaFault::MissingEstimate,
            SchemaError::Grammar(e) => SchemaFault::Grammar(e.fault()),
        }
    }
}

/// An item of the stream that is not a record.
#[derive(Debug)]
pub enum JsonError {
    /// Valid JSON that is not a record, with its JSON text; the stream goes on
    /// after it.
    SchemaMismatch { reason: SchemaError, value: serde_json::Value, text: String },
    /// Not valid JSON from here on, with the parser's message; the stream ends.
    Unrecoverable { error: serde_json::Error, text: String },
}

impl SchemaError {
    pub open spec fn message_text(&self) -> Seq<char> {
        match self {
            SchemaError::MissingId => "missing field `id`"@,
            SchemaError::MissingEstimate => "missing field `typical.estimate`"@,
            SchemaError::Grammar(e) => e.message_text(),
        }
    }

    /// The error as text.
    pub fn message(&self) -> (r: String)
        ensures
            r@ == self.message_text(),
    {
        match self {
            SchemaError::MissingId => "missing field `id`".to_owned(),
            SchemaError::MissingEstimate => "missing field `typical.estimate`".to_owned(),
            SchemaError::Grammar(e) => e.message(),
        }
    }
}

impl JsonError {
    /// The error as text; a value that is not a record follows its reason, as
    /// JSON, after `, value: `.
    pub fn message(&self) -> (r: String)
        ensures
            r@ == match self {
                JsonError::SchemaMismatch { reason, text, .. } => reason.message_text() + ", value: "@
                    + text@,
                JsonError::Unrecoverable { text, .. } => text@,
            },
    {
        match self {
            JsonError::SchemaMismatch { reason, text, .. } => {
                let head = concat_str(reason.message().as_str(), ", value: ");
                concat_str(head.as_str(), text.as_str())
            },
            JsonError::Unrecoverable { text, .. } => text.clone(),
        }
    }
}

/// Mathematical form of an item of the stream.
/// Mathematical form of an item of the stream: a record; a value that is not
/// one, with why and its JSON text; or a syntax error, with its message.
pub enum StreamItem {
    Record(DataView),
    Mismatch(SchemaFault, Seq<char>),
    Unrecoverable(Seq<char>),
}

pub open spec fn item_view(r: Result<BenchData, JsonError>) -> StreamItem {
    match r {
        Ok(d) => StreamItem::Record(d.view()),
        Err(JsonError::SchemaMismatch { reason, text, .. }) => StreamItem::Mismatch(
            reason.fault(),
            text@,
        ),
        Err(JsonError::Unrecoverable { text, .. }) => StreamItem::Unrecoverable(text@),
    }
}

/// The record for a JSON value with this `id` text and `typical.estimate`, or
/// why there is none.
pub open spec fn record_outcome(id: Option<Seq<char>>, estimate_bits: Option<u64>) -> Result<
    DataView,
    SchemaFault,
> {
    match id {
        None => Err(SchemaFault::MissingId),
        Some(s) => match bench_id_spec(s) {
            Err(f) => Err(SchemaFault::Grammar(f)),
            Ok(iv) => match estimate_bits {
                None => Err(SchemaFault::MissingEstimate),
                Some(b) => Ok((iv, b)),
            },
        },
    }
}

/// The item for the JSON value at the start of `rest`.
pub open spec fn value_item(rest: Seq<u8>) -> StreamItem {
    match record_outcome(
        json_member_text(rest, ID_KEY@),
        json_member_bits(rest, RESULT_KEY@, ESTIMATE_KEY@),
    ) {
        Ok(d) => StreamItem::Record(d),
        Err(f) => StreamItem::Mismatch(f, json_value_text(rest)),
    }
}

/// The items read from `b` from offset `pos` on: one per JSON value, in
/// order, until only whitespace is left; a syntax error gives one
/// `Unrecoverable` item and ends the items.
pub open spec fn stream_items(b: Seq<u8>, pos: nat) -> Seq<StreamItem>
    decreases b.len() - pos,
{
    if pos >= b.len() {
        Seq::empty()
    } else {
        let rest = rest_of(b, pos as int);
        if is_blank(rest) {
            Seq::empty()
        } else {
            match json_scan(rest) {
                None => seq![StreamItem::Unrecoverable(json_error_text(rest))],
                Some(n) => if 0 < n <= rest.len() {
                    seq![value_item(rest)] + stream_items(
                        b,
                        pos + n,
                    )
                } else {
                    Seq::empty()
                },
            }
        }
    }
}

/// The records among the items, in order.
pub open spec fn records_of(items: Seq<StreamItem>) -> Seq<DataView>
    decreases items.len(),
{
    if items.len() == 0 {
        Seq::empty()
    } else {
        match items[0] {
            StreamItem::Record(d) => seq![d] + records_of(items.drop_first()),
            _ => records_of(items.drop_first()),
        }
    }
}

/// Builds a record from the text of its `id` member and the bits of its
/// `typical.estimate` member, where they were found.
pub fn record_from_fields(id: Option<String>, estimate_bits: Option<u64>) -> (r: Result<
    BenchData,
    SchemaError,
>)
    ensures
        r matches Ok(d) ==> record_outcome(opt_text(id), estimate_bits) == Ok::<
            DataView,
            SchemaFault,
        >(d.view()),
        r matches Err(e) ==> record_outcome(opt_text(id), estimate_bits) == Err::<
            DataView,
            SchemaFault,
        >(e.fault()),
{
    let text = match id {
        None => return Err(SchemaError::MissingId),
        Some(s) => s,
    };
    let parsed = match BenchId::parse(text.as_str()) {
        Ok(p) => p,
        Err(e) => return Err(SchemaError::Grammar(e)),
    };
    match estimate_bits {
        None => Err(SchemaError::MissingEstimate),
        Some(b) => Ok(BenchData { id: parsed, result: BenchResult { time_bits: b } }),
    }
}

/// Reads benchmark records one by one from a buffer of concatenated JSON values.
pub struct ResilientStreamDeserializer<'a> {
    json: &'a [u8],
    pos: usize,
    done: bool,
}

impl<'a> ResilientStreamDeserializer<'a> {
    pub closed spec fn bytes(&self) -> Seq<u8> {
        self.json@
    }

    /// Offset of the first byte not yet read.
    pub closed spec fn offset(&self) -> nat {
        self.pos as nat
    }

    /// Whether the stream has ended.
    pub closed spec fn finished(&self) -> bool {
        self.done
    }

    pub open spec fn wf(&self) -> bool {
        self.offset() <= self.bytes().len()
    }

    /// The items still to come.
    pub open spec fn remaining(&self) -> Seq<StreamItem> {
        if self.finished() {
            Seq::empty()
        } else {
            stream_items(self.bytes(), self.offset())
        }
    }

    /// A stream at the start of `json`: it will yield `stream_items` of its bytes.
    pub fn new(json: &'a str) -> (r: Self)
        ensures
            r.wf(),
            r.bytes() == json.spec_bytes(),
            r.offset() == 0,
            !r.finished(),
            r.remaining() == stream_items(json.spec_bytes(), 0),
    {
        ResilientStreamDeserializer { json: json.as_bytes(), pos: 0, done: false }
    }

    /// The next item: a record, a value that is not one (the stream then goes
    /// on after it), or a syntax error (the stream then ends); `None` once the
    /// buffer is used up or the stream has ended.
    pub fn next(&mut self) -> (r: Option<Result<BenchData, JsonError>>)
        requires
            old(self).wf(),
        ensures
            final(self).wf(),
            final(self).bytes() == old(self).bytes(),
            old(self).finished() ==> r is None && final(self).finished(),
            r is None ==> old(self).remaining() == Seq::<StreamItem>::empty()
                && final(self).remaining() == Seq::<StreamItem>::empty(),
            r matches Some(item) ==> old(self).remaining() == seq![item_view(item)]
                + final(self).remaining(),
            r matches Some(Err(JsonError::Unrecoverable { .. })) ==> final(self).finished()
                && final(self).offset() == final(self).bytes().len(),
    {
        if self.done {
            return None;
        }
        let len = self.json.len();
        let ghost rest = rest_of(self.json@, self.pos as int);
        assert(is_blank(Seq::<u8>::empty()));
        if self.pos == len {
            assert(rest =~= Seq::<u8>::empty());
        }
        match scan_value(self.json, self.pos) {
            None => {
                self.done = true;
                None
            },
            Some(Err((error, text))) => {
                self.pos = len;
                self.done = true;
                let ghost one = seq![StreamItem::Unrecoverable(text@)];
                assert(one + Seq::<StreamItem>::empty() =~= one);
                Some(Err(JsonError::Unrecoverable { error, text }))
            },
            Some(Ok((value, n, text))) => {
                let id = member_text(self.json, self.pos, ID_KEY);
                let estimate_bits = member_bits(self.json, self.pos, RESULT_KEY, ESTIMATE_KEY);
                self.pos = self.pos + n;
                match record_from_fields(id, estimate_bits) {
                    Ok(d) => Some(Ok(d)),
                    Err(reason) => Some(Err(JsonError::SchemaMismatch { reason, value, text })),
                }
            },
        }
    }
}

/// Reads every record of a buffer, in order, skipping the values that are not
/// records and stopping at a syntax error.
pub fn collect_records(json: &str) -> (r: Vec<BenchData>)
    ensures
        data_view(r@) == records_of(stream_items(json.spec_bytes(), 0)),
{
    let mut stream = ResilientStreamDeserializer::new(json);
    let mut data: Vec<BenchData> = Vec::new();
    loop
        invariant
            stream.wf(),
            data_view(data@) + records_of(stream.remaining()) == records_of(
                stream_items(json.spec_bytes(), 0),
            ),
        ensures
            data_view(data@) == records_of(stream_items(json.spec_bytes(), 0)),
        decreases stream.remaining().len(),
    {
        let ghost items = stream.remaining();
        match stream.next() {
            None => {
                assert(records_of(items) == Seq::<DataView>::empty());
                assert(data_view(data@) + Seq::<DataView>::empty() =~= data_view(data@));
                break;
            },
            Some(Ok(record)) => {
                assert(items.drop_first() =~= stream.remaining());
                let ghost before = data_view(data@);
                data.push(record);
                assert(data_view(data@) =~= before.push(record.view()));
                let ghost one = seq![record.view()];
                assert(data_view(data@) + records_of(stream.remaining()) =~= before + (one
                    + records_of(stream.remaining())));
            },
            Some(Err(e)) => {
                assert(items.drop_first() =~= stream.remaining());
            },
        }
    }
    data
}

/// The number of items is bounded by the bytes left: every item but a final
/// `Unrecoverable` one consumes at least one byte, and that one needs a byte
/// that is not whitespace.
pub proof fn lemma_items_bounded(b: Seq<u8>, pos: nat)
    ensures
        stream_items(b, pos).len() <= if pos <= b.len() {
            b.len() - pos
        } else {
            0
        },
    decreases b.len() - pos,
{
    if pos < b.len() {
        let rest = rest_of(b, pos as int);
        if !is_blank(rest) {
            if let Some(n) = json_scan(rest) {
                if 0 < n <= rest.len() {
                    lemma_items_bounded(b, pos + n);
                }
            }
        }
    }
}

/// A buffer of nothing but whitespace yields no item.
pub proof fn lemma_blank_yields_nothing(b: Seq<u8>)
    requires
        is_blank(b),
    ensures
        stream_items(b, 0) == Seq::<StreamItem>::empty(),
{
    assert(rest_of(b, 0) =~= b);
}

/// An `Unrecoverable` item is the last one: nothing follows it.
pub proof fn lemma_unrecoverable_is_last(b: Seq<u8>, pos: nat, i: int)
    requires
        0 <= i < stream_items(b, pos).len(),
        stream_items(b, pos)[i] is Unrecoverable,
    ensures
        i == stream_items(b, pos).len() - 1,
    decreases b.len() - pos,
{
    let rest = rest_of(b, pos as int);
    if let Some(n) = json_scan(rest) {
        if i > 0 {
            let tail = stream_items(b, pos + n);
            assert(stream_items(b, pos)[i] == tail[i - 1]);
            lemma_unrecoverable_is_last(b, pos + n, i - 1);
        }
    }
}

/// The buffer from `pos` on is JSON values and whitespace only, with no
/// syntax error.
pub open spec fn values_only(b: Seq<u8>, pos: nat) -> bool
    decreases b.len() - pos,
{
    if pos >= b.len() || is_blank(rest_of(b, pos as int)) {
        true
    } else {
        match json_scan(rest_of(b, pos as int)) {
            None => false,
            Some(n) => if 0 < n <= rest_of(b, pos as int).len() {
                values_only(b, pos + n)
            } else {
                true
            },
        }
    }
}

/// On a buffer of JSON values only, every item is a record or a mismatch,
/// one per value in order: none is `Unrecoverable`.
pub proof fn lemma_values_give_no_unrecoverable(b: Seq<u8>, pos: nat)
    requires
        values_only(b, pos),
    ensures
        forall|i: int|
            0 <= i < stream_items(b, pos).len() ==> !(#[trigger] stream_items(b, pos)[i] is Unrecoverable),
    decreases b.len() - pos,
{
    if pos < b.len() && !is_blank(rest_of(b, pos as int)) {
        if let Some(n) = json_scan(rest_of(b, pos as int)) {
            if 0 < n <= rest_of(b, pos as int).len() {
                lemma_values_give_no_unrecoverable(b, pos + n);
                let tail = stream_items(b, pos + n);
                assert forall|i: int| 0 < i < stream_items(b, pos).len() implies !(
                #[trigger] stream_items(b, pos)[i] is Unrecoverable) by {
                    assert(stream_items(b, pos)[i] == tail[i - 1]);
                }
            }
        }
    }
}

/// `offs` cuts `b` into whole JSON values: reading from each offset but the
/// last gives one value that ends at the next offset.
pub open spec fn value_steps(b: Seq<u8>, offs: Seq<nat>) -> bool {
    &&& offs.len() >= 1
    &&& forall|i: int|
        0 <= i < offs.len() - 1 ==> {
            &&& offs[i] < #[trigger] offs[i + 1] <= b.len()
            &&& !is_blank(rest_of(b, offs[i] as int))
            &&& json_scan(rest_of(b, offs[i] as int)) == Some((offs[i + 1] - offs[i]) as nat)
        }
}

/// The items of the values that `offs` cuts out, in order.
pub open spec fn step_items(b: Seq<u8>, offs: Seq<nat>, j: int) -> Seq<StreamItem> {
    Seq::new((offs.len() - 1 - j) as nat, |i: int| value_item(rest_of(b, offs[j + i] as int)))
}

proof fn lemma_steps(b: Seq<u8>, offs: Seq<nat>, j: int)
    requires
        value_steps(b, offs),
        0 <= j < offs.len(),
    ensures
        stream_items(b, offs[j]) == step_items(b, offs, j) + stream_items(b, offs.last()),
    decreases offs.len() - j,
{
    if j == offs.len() - 1 {
        assert(step_items(b, offs, j) + stream_items(b, offs.last()) =~= stream_items(b, offs.last()));
    } else {
        assert(offs[j] < offs[j + 1] <= b.len());
        lemma_steps(b, offs, j + 1);
        let rest = rest_of(b, offs[j] as int);
        assert(rest.len() == b.len() - offs[j]);
        assert(step_items(b, offs, j) =~= seq![value_item(rest)] + step_items(b, offs, j + 1));
        assert(step_items(b, offs, j) + stream_items(b, offs.last()) =~= seq![value_item(rest)] + (
        step_items(b, offs, j + 1) + stream_items(b, offs.last())));
    }
}

/// A buffer made of whole JSON values and whitespace yields one item per
/// value, in order, each a record or a mismatch, and nothing else: no
/// `Unrecoverable` item.
pub proof fn lemma_values_yield_one_item_each(b: Seq<u8>, offs: Seq<nat>)
    requires
        value_steps(b, offs),
        offs[0] == 0,
        is_blank(rest_of(b, offs.last() as int)),
    ensures
        stream_items(b, 0) == step_items(b, offs, 0),
        forall|i: int|
            0 <= i < stream_items(b, 0).len() ==> !(#[trigger] stream_items(b, 0)[i] is Unrecoverable),
{
    lemma_steps(b, offs, 0);
    assert(stream_items(b, offs.last()) =~= Seq::<StreamItem>::empty());
    assert(step_items(b, offs, 0) + Seq::<StreamItem>::empty() =~= step_items(b, offs, 0));
}

/// Whole JSON values followed by a fragment that is not JSON yield one item
/// per value, in order, then exactly one `Unrecoverable` item, and then no more.
pub proof fn lemma_values_then_garbage(b: Seq<u8>, offs: Seq<nat>)
    requires
        value_steps(b, offs),
        offs[0] == 0,
        offs.last() < b.len(),
        !is_blank(rest_of(b, offs.last() as int)),
        json_scan(rest_of(b, offs.last() as int)) is None,
    ensures
        stream_items(b, 0) == step_items(b, offs, 0) + seq![
            StreamItem::Unrecoverable(json_error_text(rest_of(b, offs.last() as int))),
        ],
{
    lemma_steps(b, offs, 0);
}

} // verus!
