//! The canonical serializer: walks one `Value`, emits its tokens, and
//! assembles records into sorted dictionaries by buffering each field,
//! re-tokenizing its bytes, and replaying them into the outer stream.

use vstd::prelude::*;

use crate::decoder::lemma_decode_token_at;
use crate::decoder::Decoder;
use crate::encoder::Encoder;
use crate::encoder::DEFAULT_MAX_DEPTH;
use crate::token::lemma_lex_total;
use crate::token::lemma_lex_from_eq_prefix;
use crate::token::lemma_stream_bytes_concat;
use crate::token::lemma_token_bytes_nonempty;
use crate::token::lex_lt;
use crate::token::replayable;
use crate::token::stream_bytes;
use crate::token::stream_run;
use crate::token::token_bytes;
use crate::token::token_wf;
use crate::token::Error;
use crate::token::IntValue;
use crate::token::Token;
use crate::token::TokenModel;
use crate::value::collected_fields;
use crate::value::entries_ok;
use crate::value::entries_tokens;
use crate::value::lemma_serialized_replayable;
use crate::value::lemma_field_models_index;
use crate::value::lemma_models_index;
use crate::value::lemma_sorted_insert_entries_ok;
use crate::value::lemma_value_wf;
use crate::value::serialized;
use crate::value::serialized_elems;
use crate::value::sorted_insert;
use crate::value::CollectOutcome;
use crate::value::SerOutcome;
use crate::value::Shape;
use crate::value::Value;
use crate::value::ValueModel;

verus! {

/// Three-way outcome of a byte-wise key comparison.
enum KeyOrder {
    Less,
    Equal,
    Greater,
}

/// Byte-wise lexicographic comparison of two keys.
fn compare_keys(a: &Vec<u8>, b: &Vec<u8>) -> (r: KeyOrder)
    ensures
        r is Less <==> lex_lt(a@, b@),
        r is Equal <==> a@ == b@,
        r is Greater <==> lex_lt(b@, a@),
{
    let mut i: usize = 0;
    while i < a.len() && i < b.len()
        invariant
            i <= a.len(),
            i <= b.len(),
            forall|q: int| 0 <= q < i ==> a@[q] == #[trigger] b@[q],
        decreases a.len() - i,
    {
        if a[i] < b[i] {
            proof {
                lemma_lex_from_eq_prefix(a@, b@, i as int);
                lemma_lex_from_eq_prefix(b@, a@, i as int);
                lemma_lex_total(a@, b@);
            }
            return KeyOrder::Less;
        }
        if a[i] > b[i] {
            proof {
                lemma_lex_from_eq_prefix(a@, b@, i as int);
                lemma_lex_from_eq_prefix(b@, a@, i as int);
                lemma_lex_total(a@, b@);
            }
            return KeyOrder::Greater;
        }
        i = i + 1;
    }
    proof {
        lemma_lex_from_eq_prefix(a@, b@, i as int);
        lemma_lex_from_eq_prefix(b@, a@, i as int);
        lemma_lex_total(a@, b@);
    }
    if a.len() == b.len() {
        proof {
            assert(a@ =~= b@);
        }
        KeyOrder::Equal
    } else if a.len() < b.len() {
        KeyOrder::Less
    } else {
        KeyOrder::Greater
    }
}

/// A fresh copy of a byte buffer.
fn copy_bytes(src: &Vec<u8>) -> (r: Vec<u8>)
    ensures
        r@ == src@,
{
    let mut out: Vec<u8> = Vec::new();
    let mut i: usize = 0;
    while i < src.len()
        invariant
            i <= src.len(),
            out@ == src@.subrange(0, i as int),
        decreases src.len() - i,
    {
        out.push(src[i]);
        i = i + 1;
        assert(out@ =~= src@.subrange(0, i as int));
    }
    assert(src@.subrange(0, src.len() as int) =~= src@);
    out
}

proof fn lemma_stream_bytes_singleton(t: TokenModel)
    ensures
        stream_bytes(seq![t]) == token_bytes(t),
{
    assert(seq![t].drop_first() =~= Seq::<TokenModel>::empty());
    assert(stream_bytes(Seq::<TokenModel>::empty()) =~= Seq::<u8>::empty());
    assert(token_bytes(t) + Seq::<u8>::empty() =~= token_bytes(t));
}

/// Re-tokenizes `buf` and replays every token onto `enc`. The buffer is
/// checked, not trusted: a malformed or overflowing stream is reported, but
/// for a buffer that spells `toks` within the encoder's headroom the replay
/// provably succeeds and appends exactly `buf`.
fn replay_stream(enc: &mut Encoder, buf: Vec<u8>, toks: Ghost<Seq<TokenModel>>) -> (r: Result<
    (),
    Error,
>)
    requires
        old(enc).wf(),
        buf@ == stream_bytes(toks@),
        stream_run(toks@, old(enc).depth() as int, old(enc).max_depth() as int) == Some(
            old(enc).depth() as int,
        ),
    ensures
        r is Ok,
        final(enc).wf(),
        final(enc).max_depth() == old(enc).max_depth(),
        final(enc).depth() == old(enc).depth(),
        final(enc).output() == old(enc).output() + buf@,
{
    let ghost ts = toks@;
    let ghost total = buf@;
    let ghost base_out = enc.output();
    let ghost base_depth = enc.depth() as int;
    let ghost max = enc.max_depth() as int;
    let total_len = buf.len();
    let mut dec = Decoder::new(buf);
    let ghost mut k: int = 0;
    proof {
        assert(ts.take(0) =~= Seq::<TokenModel>::empty());
        assert(ts.skip(0) =~= ts);
    }
    while dec.pos() < total_len
        invariant
            dec.wf(),
            enc.wf(),
            dec.bytes() == total,
            total.len() == total_len,
            total == stream_bytes(ts),
            0 <= k <= ts.len(),
            dec.position() == stream_bytes(ts.take(k)).len(),
            enc.max_depth() as int == max,
            enc.output() == base_out + stream_bytes(ts.take(k)),
            stream_run(ts.skip(k), enc.depth() as int, max) == Some(base_depth),
        decreases total.len() - dec.position(),
    {
        let ghost pos = dec.position();
        proof {
            assert(k < ts.len()) by {
                if k >= ts.len() {
                    assert(ts.take(k) =~= ts);
                }
            }
            lemma_stream_bytes_concat(ts.take(k), ts.skip(k));
            assert(ts.take(k) + ts.skip(k) =~= ts);
            assert(ts.skip(k).first() == ts[k]);
            assert(ts.skip(k).drop_first() =~= ts.skip(k + 1));
            assert(stream_bytes(ts.skip(k)) == token_bytes(ts[k]) + stream_bytes(ts.skip(k + 1)));
            assert(token_wf(ts[k]));
            let tb = token_bytes(ts[k]);
            assert(pos + tb.len() + stream_bytes(ts.skip(k + 1)).len() == total.len());
            assert forall|q: int| 0 <= q < tb.len() implies total.subrange(pos, pos + tb.len())[q]
                == tb[q] by {
                assert(total[pos + q] == stream_bytes(ts.skip(k))[q]);
                assert(stream_bytes(ts.skip(k))[q] == tb[q]);
            }
            assert(total.subrange(pos, pos + tb.len()) =~= tb);
            lemma_decode_token_at(total, pos, ts[k]);
        }
        let step = dec.next();
        match step {
            Ok(Some(t)) => {
                let ghost tok = ts[k];
                let emitted = enc.emit_token(t);
                match emitted {
                    Ok(()) => {},
                    Err(e) => {
                        return Err(e);
                    },
                }
                proof {
                    let old_k = k;
                    k = k + 1;
                    lemma_stream_bytes_concat(ts.take(old_k), seq![tok]);
                    assert(ts.take(old_k) + seq![tok] =~= ts.take(k));
                    assert(seq![tok].drop_first() =~= Seq::<TokenModel>::empty());
                    assert(stream_bytes(seq![tok]) == token_bytes(tok) + stream_bytes(
                        Seq::<TokenModel>::empty(),
                    ));
                    assert(stream_bytes(ts.take(k)) =~= stream_bytes(ts.take(old_k))
                        + token_bytes(tok));
                    assert(enc.output() =~= base_out + stream_bytes(ts.take(k)));
                }
            },
            Ok(None) => {
                return Ok(());
            },
            Err(_) => {
                return Err(Error::MalformedStream);
            },
        }
    }
    proof {
        assert(k == ts.len()) by {
            if k < ts.len() {
                lemma_stream_bytes_concat(ts.take(k), ts.skip(k));
                assert(ts.take(k) + ts.skip(k) =~= ts);
                assert(ts.skip(k).first() == ts[k]);
                lemma_token_bytes_nonempty(ts[k]);
                assert(stream_bytes(ts.skip(k)).len() >= 1);
            }
        }
        assert(ts.take(k) =~= ts);
        assert(ts.skip(k) =~= Seq::<TokenModel>::empty());
        assert(stream_run(Seq::<TokenModel>::empty(), enc.depth() as int, max) == Some(
            enc.depth() as int,
        ));
    }
    Ok(())
}

/// Serializes one `Value` into canonical bencode with the default nesting
/// limit.
pub fn to_bytes(value: &Value) -> (r: Result<Vec<u8>, Error>)
    ensures
        match serialized(value@, DEFAULT_MAX_DEPTH as nat) {
            SerOutcome::Output(ts) => r matches Ok(b) && b@ == stream_bytes(ts),
            SerOutcome::Unsupported(s) => r matches Err(e) && e == Error::Unsupported(s),
            SerOutcome::TooDeep => r matches Err(e) && e == Error::NestingTooDeep,
        },
{
    let mut serializer = Serializer::new();
    match serializer.serialize_value(value) {
        Ok(()) => {
            let r = serializer.into_bytes();
            proof {
                if serialized(value@, DEFAULT_MAX_DEPTH as nat) is Output {
                    let ts = serialized(value@, DEFAULT_MAX_DEPTH as nat)->Output_0;
                    assert(Seq::<u8>::empty() + stream_bytes(ts) =~= stream_bytes(ts));
                }
            }
            r
        },
        Err(e) => Err(e),
    }
}

/// The serializer: owns the output encoder for the duration of one
/// top-level call.
pub struct Serializer {
    encoder: Encoder,
}

impl Serializer {
    /// The bytes written so far.
    pub closed spec fn output(&self) -> Seq<u8> {
        self.encoder.output()
    }

    /// How many containers are open.
    pub closed spec fn depth(&self) -> nat {
        self.encoder.depth()
    }

    /// The configured nesting limit.
    pub closed spec fn max_depth(&self) -> nat {
        self.encoder.max_depth()
    }

    /// The remaining depth budget.
    pub open spec fn remaining(&self) -> nat {
        (self.max_depth() - self.depth()) as nat
    }

    pub closed spec fn wf(&self) -> bool {
        self.encoder.wf()
    }

    /// A serializer with the default nesting limit.
    pub fn new() -> (r: Serializer)
        ensures
            r.wf(),
            r.output() == Seq::<u8>::empty(),
            r.depth() == 0,
            r.max_depth() == DEFAULT_MAX_DEPTH as nat,
    {
        Serializer { encoder: Encoder::new() }
    }

    /// A serializer with the given maximum nesting depth.
    pub fn with_max_depth(max_depth: usize) -> (r: Serializer)
        ensures
            r.wf(),
            r.output() == Seq::<u8>::empty(),
            r.depth() == 0,
            r.max_depth() == max_depth as nat,
    {
        Serializer { encoder: Encoder::new().with_max_depth(max_depth) }
    }

    /// Consumes the serializer, returning the encoded bytes; fails if a
    /// container is still open.
    pub fn into_bytes(self) -> (r: Result<Vec<u8>, Error>)
        ensures
            if self.depth() == 0 {
                r matches Ok(b) && b@ == self.output()
            } else {
                r == Err::<Vec<u8>, Error>(Error::UnbalancedContainers)
            },
    {
        self.encoder.get_output()
    }

    /// A field collector that shares this serializer's remaining depth
    /// budget.
    pub fn struct_serializer(&self) -> (r: StructSerializer)
        requires
            self.wf(),
        ensures
            r.wf(),
            r.budget() == self.remaining(),
            r.entries() == Seq::<(Seq<u8>, Seq<TokenModel>)>::empty(),
    {
        StructSerializer::new(self.encoder.remaining_depth())
    }

    /// Serializes one value onto this serializer's encoder: exactly the
    /// token stream `serialized` assigns it, or the failure `serialized`
    /// assigns it, with nothing decided anywhere else.
    pub fn serialize_value(&mut self, value: &Value) -> (r: Result<(), Error>)
        requires
            old(self).wf(),
        ensures
            final(self).wf(),
            final(self).max_depth() == old(self).max_depth(),
            match serialized(value@, old(self).remaining()) {
                SerOutcome::Output(ts) => r is Ok && final(self).depth() == old(self).depth()
                    && final(self).output() == old(self).output() + stream_bytes(ts),
                SerOutcome::Unsupported(s) => r matches Err(e) && e == Error::Unsupported(s),
                SerOutcome::TooDeep => r matches Err(e) && e == Error::NestingTooDeep,
            },
        decreases value@, 0int,
    {
        let ghost budget = old(self).remaining();
        match value {
            Value::Int(n) => {
                let neg = *n < 0;
                let mag: u128 = if *n < 0 {
                    ((-1 - *n) as u128) + 1
                } else {
                    *n as u128
                };
                let iv = IntValue { neg, mag };
                proof {
                    if *n < 0 {
                        assert(mag as int == ((-1 - *n) as int) + 1);
                        assert(iv@ == *n as int);
                    } else {
                        assert(iv@ == *n as int);
                    }
                    lemma_stream_bytes_singleton(TokenModel::Int(*n as int));
                }
                self.encoder.emit_int(iv);
                Ok(())
            },
            Value::Uint(n) => {
                let iv = IntValue { neg: false, mag: *n };
                proof {
                    assert(iv@ == *n as int);
                    lemma_stream_bytes_singleton(TokenModel::Int(*n as int));
                }
                self.encoder.emit_int(iv);
                Ok(())
            },
            Value::Bytes(b) => {
                proof {
                    lemma_stream_bytes_singleton(TokenModel::Bytes(b@));
                }
                self.encoder.emit_bytes(b);
                Ok(())
            },
            Value::List(es) => {
                let ghost ems = Value::models(es@);
                proof {
                    lemma_models_index(es@);
                }
                match self.encoder.emit_token(Token::List) {
                    Ok(()) => {},
                    Err(e) => {
                        return Err(e);
                    },
                }
                let ghost sub = (budget - 1) as nat;
                let ghost base_out = self.output();
                let ghost base_depth = self.depth();
                let ghost mut done: Seq<TokenModel> = Seq::empty();
                proof {
                    assert(Seq::<u8>::empty() + stream_bytes(done) =~= stream_bytes(done));
                    assert(stream_bytes(done) =~= Seq::<u8>::empty());
                    assert(base_out + stream_bytes(done) =~= base_out);
                    match serialized_elems(ems, 0, sub) {
                        SerOutcome::Output(rest) => {
                            assert(done + rest =~= rest);
                        },
                        _ => {},
                    }
                }
                let mut i: usize = 0;
                while i < es.len()
                    invariant
                        self.wf(),
                        value@ == ValueModel::List(ems),
                        budget == old(self).remaining(),
                        budget >= 1,
                        sub == (budget - 1) as nat,
                        i <= es.len(),
                        ems.len() == es@.len(),
                        forall|q: int| 0 <= q < es@.len() ==> ems[q] == #[trigger] es@[q]@,
                        self.max_depth() == old(self).max_depth(),
                        self.depth() == base_depth,
                        self.remaining() == sub,
                        self.output() == base_out + stream_bytes(done),
                        serialized_elems(ems, 0, sub) == (match serialized_elems(
                            ems,
                            i as int,
                            sub,
                        ) {
                            SerOutcome::Output(rest) => SerOutcome::Output(done + rest),
                            e => e,
                        }),
                    decreases es.len() - i,
                {
                    proof {
                        let ghost vm = value@;
                        assert(vm == ValueModel::List(ems));
                        assert(decreases_to!(vm => vm->List_0));
                        assert(decreases_to!(ems => ems[i as int]));
                        assert(ems[i as int] == es@[i as int]@);
                    }
                    let res = self.serialize_value(&es[i]);
                    match res {
                        Ok(()) => {},
                        Err(e) => {
                            return Err(e);
                        },
                    }
                    proof {
                        let ts = serialized(ems[i as int], sub)->Output_0;
                        let old_done = done;
                        done = done + ts;
                        assert(base_out + stream_bytes(old_done) + stream_bytes(ts) =~= base_out
                            + (stream_bytes(old_done) + stream_bytes(ts)));
                        lemma_stream_bytes_concat(old_done, ts);
                        match serialized_elems(ems, i + 1, sub) {
                            SerOutcome::Output(rest) => {
                                assert(old_done + (ts + rest) =~= done + rest);
                            },
                            _ => {},
                        }
                    }
                    i = i + 1;
                }
                proof {
                    assert(serialized_elems(ems, i as int, sub) == SerOutcome::Output(
                        Seq::<TokenModel>::empty(),
                    ));
                    assert(done + Seq::<TokenModel>::empty() =~= done);
                }
                match self.encoder.emit_token(Token::End) {
                    Ok(()) => {},
                    Err(e) => {
                        return Err(e);
                    },
                }
                proof {
                    let ts_all = seq![TokenModel::List] + done + seq![TokenModel::End];
                    lemma_stream_bytes_concat(seq![TokenModel::List] + done, seq![TokenModel::End]);
                    lemma_stream_bytes_concat(seq![TokenModel::List], done);
                    assert(seq![TokenModel::List].drop_first() =~= Seq::<TokenModel>::empty());
                    assert(seq![TokenModel::End].drop_first() =~= Seq::<TokenModel>::empty());
                    assert(stream_bytes(seq![TokenModel::List]) =~= token_bytes(TokenModel::List));
                    assert(stream_bytes(seq![TokenModel::End]) =~= token_bytes(TokenModel::End));
                    assert(ts_all == (seq![TokenModel::List] + done) + seq![TokenModel::End]);
                    assert(self.output() =~= old(self).output() + stream_bytes(ts_all));
                }
                Ok(())
            },
            Value::Record(fields) => {
                let ghost fms = Value::field_models(fields@);
                proof {
                    lemma_field_models_index(fields@);
                }
                let mut collector = self.struct_serializer();
                let ghost sub = collector.sub_budget();
                let mut i: usize = 0;
                while i < fields.len()
                    invariant
                        self.wf(),
                        collector.wf(),
                        value@ == ValueModel::Record(fms),
                        i <= fields.len(),
                        fms.len() == fields@.len(),
                        forall|q: int|
                            0 <= q < fields@.len() ==> fms[q] == (
                                (#[trigger] fields@[q]).0@,
                                fields@[q].1@,
                            ),
                        *self == *old(self),
                        collector.budget() == old(self).remaining(),
                        collector.sub_budget() == sub,
                        collected_fields(fms, 0, sub, Seq::empty()) == collected_fields(
                            fms,
                            i as int,
                            sub,
                            collector.entries(),
                        ),
                    decreases fields.len() - i,
                {
                    proof {
                        let ghost vm = value@;
                        assert(vm == ValueModel::Record(fms));
                        assert(decreases_to!(vm => vm->Record_0));
                        assert(decreases_to!(fms => fms[i as int]));
                        assert(decreases_to!(fms[i as int] => fms[i as int].1));
                        assert(fms[i as int].1 == fields@[i as int].1@);
                    }
                    let res = collector.serialize_field(&fields[i].0, &fields[i].1);
                    match res {
                        Ok(()) => {},
                        Err(e) => {
                            return Err(e);
                        },
                    }
                    i = i + 1;
                }
                proof {
                    assert(collected_fields(fms, i as int, sub, collector.entries())
                        == CollectOutcome::Entries(collector.entries()));
                }
                collector.end(self)
            },
            Value::Bool(_) => Err(Error::Unsupported(Shape::Bool)),
            Value::Float => Err(Error::Unsupported(Shape::Float)),
            Value::Char(_) => Err(Error::Unsupported(Shape::Char)),
            Value::Optional => Err(Error::Unsupported(Shape::Optional)),
            Value::Unit => Err(Error::Unsupported(Shape::Unit)),
            Value::Variant => Err(Error::Unsupported(Shape::Variant)),
            Value::Mapping => Err(Error::Unsupported(Shape::Mapping)),
        }
    }

    /// Writes one complete dictionary: dict-open, then for each collected
    /// entry in sorted order its name and its replayed value bytes, then
    /// dict-close.
    pub(crate) fn emit_struct(&mut self, fields: StructSerializer) -> (r: Result<(), Error>)
        requires
            old(self).wf(),
            fields.wf(),
            fields.budget() <= old(self).remaining(),
        ensures
            final(self).wf(),
            final(self).max_depth() == old(self).max_depth(),
            if old(self).remaining() == 0 {
                r == Err::<(), Error>(Error::NestingTooDeep)
                    && final(self).depth() == old(self).depth()
                    && final(self).output() == old(self).output()
            } else {
                r is Ok && final(self).depth() == old(self).depth()
                    && final(self).output() == old(self).output() + stream_bytes(
                    seq![TokenModel::Dict] + entries_tokens(fields.entries())
                        + seq![TokenModel::End],
                )
            },
    {
        let ghost entries = fields.entries();
        let ghost sub = fields.sub_budget();
        let ghost base_out = self.output();
        let ghost base_depth = self.depth();
        let ghost max = self.max_depth();
        match self.encoder.emit_token(Token::Dict) {
            Ok(()) => {},
            Err(e) => {
                return Err(e);
            },
        }
        let StructSerializer { remaining_depth: _, contents, entries: _ } = fields;
        proof {
            assert(entries_tokens(entries.take(0)) =~= Seq::<TokenModel>::empty());
            assert(stream_bytes(Seq::<TokenModel>::empty()) =~= Seq::<u8>::empty());
            assert(base_out + token_bytes(TokenModel::Dict) + Seq::<u8>::empty() =~= base_out
                + token_bytes(TokenModel::Dict));
            assert(base_depth + 1 + sub <= max);
        }
        let mut i: usize = 0;
        while i < contents.len()
            invariant
                self.wf(),
                i <= contents.len(),
                entries.len() == contents@.len(),
                forall|j: int|
                    0 <= j < contents@.len() ==> (#[trigger] contents@[j]).0@ == entries[j].0
                        && contents@[j].1@ == stream_bytes(entries[j].1),
                entries_ok(entries, sub),
                base_depth + 1 + sub <= max,
                self.max_depth() == max,
                self.depth() == base_depth + 1,
                self.output() == base_out + token_bytes(TokenModel::Dict) + stream_bytes(
                    entries_tokens(entries.take(i as int)),
                ),
            decreases contents.len() - i,
        {
            proof {
                assert(contents@[i as int].0@ == entries[i as int].0 && contents@[i as int].1@
                    == stream_bytes(entries[i as int].1));
            }
            self.encoder.emit_bytes(&contents[i].0);
            let buf = copy_bytes(&contents[i].1);
            proof {
                assert(entries[i as int].0.len() <= u128::MAX && replayable(
                    entries[i as int].1,
                    sub,
                ));
                assert(stream_run(entries[i as int].1, self.depth() as int, max as int) == Some(
                    self.depth() as int,
                ));
            }
            let replayed = replay_stream(&mut self.encoder, buf, Ghost(entries[i as int].1));
            match replayed {
                Ok(()) => {},
                Err(e) => {
                    return Err(e);
                },
            }
            proof {
                lemma_entries_tokens_take_step(entries, i as int);
                lemma_stream_bytes_concat(
                    entries_tokens(entries.take(i as int)),
                    seq![TokenModel::Bytes(entries[i as int].0)] + entries[i as int].1,
                );
                lemma_stream_bytes_concat(
                    seq![TokenModel::Bytes(entries[i as int].0)],
                    entries[i as int].1,
                );
                assert(seq![TokenModel::Bytes(entries[i as int].0)].drop_first()
                    =~= Seq::<TokenModel>::empty());
                lemma_stream_bytes_singleton(TokenModel::Bytes(entries[i as int].0));
                assert(stream_bytes(entries_tokens(entries.take(i + 1))) == stream_bytes(
                    entries_tokens(entries.take(i as int)),
                ) + (token_bytes(TokenModel::Bytes(entries[i as int].0)) + stream_bytes(
                    entries[i as int].1,
                )));
                assert(self.output() =~= base_out + token_bytes(TokenModel::Dict) + stream_bytes(
                    entries_tokens(entries.take(i + 1)),
                ));
            }
            i = i + 1;
        }
        proof {
            assert(entries.take(i as int) =~= entries);
        }
        match self.encoder.emit_token(Token::End) {
            Ok(()) => {},
            Err(e) => {
                return Err(e);
            },
        }
        proof {
            let ts_all = seq![TokenModel::Dict] + entries_tokens(entries) + seq![TokenModel::End];
            lemma_stream_bytes_concat(
                seq![TokenModel::Dict] + entries_tokens(entries),
                seq![TokenModel::End],
            );
            lemma_stream_bytes_concat(seq![TokenModel::Dict], entries_tokens(entries));
            assert(seq![TokenModel::Dict].drop_first() =~= Seq::<TokenModel>::empty());
            assert(seq![TokenModel::End].drop_first() =~= Seq::<TokenModel>::empty());
            assert(stream_bytes(seq![TokenModel::Dict]) =~= token_bytes(TokenModel::Dict));
            assert(stream_bytes(seq![TokenModel::End]) =~= token_bytes(TokenModel::End));
            assert(ts_all == (seq![TokenModel::Dict] + entries_tokens(entries))
                + seq![TokenModel::End]);
            assert(self.output() =~= old(self).output() + stream_bytes(ts_all));
        }
        Ok(())
    }
}

/// Accumulates the named fields of one record, each serialized into its own
/// buffer, as a mapping sorted by byte-wise name order.
pub struct StructSerializer {
    remaining_depth: usize,
    contents: Vec<(Vec<u8>, Vec<u8>)>,
    entries: Ghost<Seq<(Seq<u8>, Seq<TokenModel>)>>,
}

impl StructSerializer {
    /// The depth budget this collector was created with.
    pub closed spec fn budget(&self) -> nat {
        self.remaining_depth as nat
    }

    /// The budget each field is serialized under: one level is reserved for
    /// the dictionary itself.
    pub open spec fn sub_budget(&self) -> nat {
        if self.budget() == 0 {
            0
        } else {
            (self.budget() - 1) as nat
        }
    }

    /// The collected (name, token stream) entries, sorted by name.
    pub closed spec fn entries(&self) -> Seq<(Seq<u8>, Seq<TokenModel>)> {
        self.entries@
    }

    pub closed spec fn wf(&self) -> bool {
        &&& self.entries@.len() == self.contents@.len()
        &&& forall|j: int|
            0 <= j < self.contents@.len() ==> (#[trigger] self.contents@[j]).0@ ==
                self.entries@[j].0 && self.contents@[j].1@ == stream_bytes(self.entries@[j].1)
        &&& entries_ok(self.entries@, self.sub_budget())
    }

    /// A collector for one record, given the caller's remaining depth
    /// budget.
    pub fn new(remaining_depth: usize) -> (r: StructSerializer)
        ensures
            r.wf(),
            r.budget() == remaining_depth as nat,
            r.entries() == Seq::<(Seq<u8>, Seq<TokenModel>)>::empty(),
    {
        StructSerializer {
            remaining_depth,
            contents: Vec::new(),
            entries: Ghost(Seq::empty()),
        }
    }

    /// Serializes one field's value into its own buffer and inserts it
    /// under `name`, keeping names sorted; a field with an already-present
    /// name overwrites it.
    pub fn serialize_field(&mut self, name: &Vec<u8>, value: &Value) -> (r: Result<(), Error>)
        requires
            old(self).wf(),
        ensures
            final(self).wf(),
            final(self).budget() == old(self).budget(),
            match serialized(value@, old(self).sub_budget()) {
                SerOutcome::Output(ts) => r is Ok && final(self).entries() == sorted_insert(
                    old(self).entries(),
                    name@,
                    ts,
                ),
                SerOutcome::Unsupported(s) => r matches Err(e) && e == Error::Unsupported(s)
                    && final(self).entries() == old(self).entries(),
                SerOutcome::TooDeep => r matches Err(e) && e == Error::NestingTooDeep
                    && final(self).entries() == old(self).entries(),
            },
        decreases value@, 1int,
    {
        let sub = if self.remaining_depth == 0 {
            0
        } else {
            self.remaining_depth - 1
        };
        let mut nested = Serializer::with_max_depth(sub);
        match nested.serialize_value(value) {
            Ok(()) => {},
            Err(e) => {
                return Err(e);
            },
        }
        let ghost ts = serialized(value@, self.sub_budget())->Output_0;
        let bytes = match nested.into_bytes() {
            Ok(b) => b,
            Err(e) => {
                return Err(e);
            },
        };
        proof {
            assert(Seq::<u8>::empty() + stream_bytes(ts) =~= stream_bytes(ts));
            lemma_value_wf(*value);
            lemma_serialized_replayable(value@, self.sub_budget());
        }
        self.insert_sorted(name, bytes, Ghost(ts));
        Ok(())
    }

    /// Inserts `(name, bytes)` at its sorted position, overwriting an entry
    /// with the same name.
    fn insert_sorted(&mut self, name: &Vec<u8>, bytes: Vec<u8>, toks: Ghost<Seq<TokenModel>>)
        requires
            old(self).wf(),
            bytes@ == stream_bytes(toks@),
            replayable(toks@, old(self).sub_budget()),
        ensures
            final(self).wf(),
            final(self).budget() == old(self).budget(),
            final(self).entries() == sorted_insert(old(self).entries(), name@, toks@),
    {
        let ghost entries0 = self.entries@;
        let key = copy_bytes(name);
        let mut idx: usize = 0;
        while idx < self.contents.len() && entry_less(&self.contents, idx, &key)
            invariant
                self.wf(),
                *self == *old(self),
                self.entries@ == entries0,
                key@ == name@,
                idx <= self.contents.len(),
                forall|q: int| 0 <= q < idx ==> lex_lt((#[trigger] entries0[q]).0, name@),
            decreases self.contents.len() - idx,
        {
            proof {
                assert(self.contents@[idx as int].0@ == entries0[idx as int].0);
            }
            idx = idx + 1;
        }
        proof {
            assert(name@.len() <= u128::MAX) by {
                assert(name.len() <= usize::MAX);
            }
            lemma_sorted_insert_position(entries0, name@, toks@, idx as int);
            lemma_sorted_insert_entries_ok(entries0, name@, toks@, self.sub_budget());
        }
        if idx < self.contents.len() {
            let cmp = compare_keys(&self.contents[idx].0, &key);
            match cmp {
                KeyOrder::Equal => {
                    proof {
                        lemma_lex_total(name@, entries0[idx as int].0);
                        assert(entries0.skip(idx as int).first() == entries0[idx as int]);
                        assert(entries0.skip(idx as int).drop_first() =~= entries0.skip(
                            idx as int + 1,
                        ));
                    }
                    self.contents.remove(idx);
                    self.contents.insert(idx, (key, bytes));
                    proof {
                        let result = sorted_insert(entries0, name@, toks@);
                        assert(result =~= entries0.take(idx as int) + (seq![(name@, toks@)]
                            + entries0.skip(idx as int + 1)));
                        self.entries = Ghost(result);
                        assert(self.contents@ =~= old(self).contents@.remove(idx as int).insert(
                            idx as int,
                            (key, bytes),
                        ));
                        assert forall|j: int| 0 <= j < self.contents@.len() implies (
                        #[trigger] self.contents@[j]).0@ == self.entries@[j].0
                            && self.contents@[j].1@ == stream_bytes(self.entries@[j].1) by {
                            if j < idx as int {
                                assert(self.contents@[j] == old(self).contents@[j]);
                                assert(self.entries@[j] == entries0[j]);
                            } else if j == idx as int {
                                assert(self.contents@[j] == (key, bytes));
                                assert(self.entries@[j] == (name@, toks@));
                            } else {
                                assert(self.contents@[j] == old(self).contents@[j]);
                                assert(self.entries@[j] == entries0[j]);
                            }
                        }
                    }
                },
                _ => {
                    proof {
                        lemma_lex_total(name@, entries0[idx as int].0);
                        assert(lex_lt(name@, entries0[idx as int].0));
                        assert(entries0.skip(idx as int).first() == entries0[idx as int]);
                    }
                    self.contents.insert(idx, (key, bytes));
                    proof {
                        let result = sorted_insert(entries0, name@, toks@);
                        assert(result =~= entries0.take(idx as int) + (seq![(name@, toks@)]
                            + entries0.skip(idx as int)));
                        self.entries = Ghost(result);
                        assert forall|j: int| 0 <= j < self.contents@.len() implies (
                        #[trigger] self.contents@[j]).0@ == self.entries@[j].0
                            && self.contents@[j].1@ == stream_bytes(self.entries@[j].1) by {
                            if j < idx as int {
                                assert(self.contents@[j] == old(self).contents@[j]);
                                assert(self.entries@[j] == entries0[j]);
                            } else if j == idx as int {
                                assert(self.contents@[j] == (key, bytes));
                                assert(self.entries@[j] == (name@, toks@));
                            } else {
                                assert(self.contents@[j] == old(self).contents@[j - 1]);
                                assert(self.entries@[j] == entries0[j - 1]);
                            }
                        }
                    }
                },
            }
        } else {
            proof {
                assert(entries0.skip(idx as int) =~= Seq::<(Seq<u8>, Seq<TokenModel>)>::empty());
            }
            self.contents.push((key, bytes));
            proof {
                let result = sorted_insert(entries0, name@, toks@);
                assert(result =~= entries0.take(idx as int) + seq![(name@, toks@)]);
                self.entries = Ghost(result);
                assert forall|j: int| 0 <= j < self.contents@.len() implies (
                #[trigger] self.contents@[j]).0@ == self.entries@[j].0 && self.contents@[j].1@
                    == stream_bytes(self.entries@[j].1) by {
                    if j < idx as int {
                        assert(self.contents@[j] == old(self).contents@[j]);
                        assert(self.entries@[j] == entries0[j]);
                    } else {
                        assert(self.contents@[j] == (key, bytes));
                        assert(self.entries@[j] == (name@, toks@));
                    }
                }
            }
        }
    }

    /// Hands the collected fields to `outer` to be written as one
    /// dictionary.
    pub fn end(self, outer: &mut Serializer) -> (r: Result<(), Error>)
        requires
            self.wf(),
            old(outer).wf(),
            self.budget() <= old(outer).remaining(),
        ensures
            final(outer).wf(),
            final(outer).max_depth() == old(outer).max_depth(),
            if old(outer).remaining() == 0 {
                r == Err::<(), Error>(Error::NestingTooDeep)
                    && final(outer).depth() == old(outer).depth()
                    && final(outer).output() == old(outer).output()
            } else {
                r is Ok && final(outer).depth() == old(outer).depth() && final(outer).output()
                    == old(outer).output() + stream_bytes(
                    seq![TokenModel::Dict] + entries_tokens(self.entries())
                        + seq![TokenModel::End],
                )
            },
    {
        outer.emit_struct(self)
    }
}

/// Whether the entry at `idx` sorts strictly before `key`.
fn entry_less(contents: &Vec<(Vec<u8>, Vec<u8>)>, idx: usize, key: &Vec<u8>) -> (r: bool)
    requires
        idx < contents.len(),
    ensures
        r == lex_lt(contents@[idx as int].0@, key@),
{
    let cmp = compare_keys(&contents[idx].0, key);
    match cmp {
        KeyOrder::Less => true,
        _ => false,
    }
}

/// A sorted insertion whose key sorts after the first `idx` entries lands
/// at position `idx`: the scan prefix passes through unchanged.
proof fn lemma_sorted_insert_position(
    entries: Seq<(Seq<u8>, Seq<TokenModel>)>,
    key: Seq<u8>,
    toks: Seq<TokenModel>,
    idx: int,
)
    requires
        0 <= idx <= entries.len(),
        forall|q: int| 0 <= q < idx ==> lex_lt((#[trigger] entries[q]).0, key),
    ensures
        sorted_insert(entries, key, toks) == entries.take(idx) + sorted_insert(
            entries.skip(idx),
            key,
            toks,
        ),
    decreases idx,
{
    if idx == 0 {
        assert(entries.take(0) =~= Seq::<(Seq<u8>, Seq<TokenModel>)>::empty());
        assert(entries.skip(0) =~= entries);
        assert(entries.take(0) + sorted_insert(entries, key, toks) =~= sorted_insert(
            entries,
            key,
            toks,
        ));
    } else {
        lemma_lex_total(key, entries.first().0);
        assert(lex_lt(entries[0].0, key));
        assert(sorted_insert(entries, key, toks) == seq![entries.first()] + sorted_insert(
            entries.drop_first(),
            key,
            toks,
        ));
        assert forall|q: int| 0 <= q < idx - 1 implies lex_lt(
            (#[trigger] entries.drop_first()[q]).0,
            key,
        ) by {
            assert(entries.drop_first()[q] == entries[q + 1]);
        }
        lemma_sorted_insert_position(entries.drop_first(), key, toks, idx - 1);
        assert(entries.drop_first().take(idx - 1) =~= entries.take(idx).drop_first());
        assert(entries.drop_first().skip(idx - 1) =~= entries.skip(idx));
        assert(seq![entries.first()] + (entries.take(idx).drop_first() + sorted_insert(
            entries.skip(idx),
            key,
            toks,
        )) =~= entries.take(idx) + sorted_insert(entries.skip(idx), key, toks));
    }
}

/// One step of the dictionary body: the tokens of the first `i + 1` entries
/// are those of the first `i` followed by entry `i`'s name token and value
/// tokens.
proof fn lemma_entries_tokens_take_step(entries: Seq<(Seq<u8>, Seq<TokenModel>)>, i: int)
    requires
        0 <= i < entries.len(),
    ensures
        entries_tokens(entries.take(i + 1)) == entries_tokens(entries.take(i)) + (
        seq![TokenModel::Bytes(entries[i].0)] + entries[i].1),
{
    lemma_entries_tokens_concat(entries.take(i), seq![entries[i]]);
    assert(entries.take(i) + seq![entries[i]] =~= entries.take(i + 1));
    assert(seq![entries[i]].drop_first() =~= Seq::<(Seq<u8>, Seq<TokenModel>)>::empty());
    assert(entries_tokens(seq![entries[i]]) == seq![TokenModel::Bytes(entries[i].0)]
        + entries[i].1 + entries_tokens(Seq::<(Seq<u8>, Seq<TokenModel>)>::empty()));
    assert(seq![TokenModel::Bytes(entries[i].0)] + entries[i].1 + Seq::<TokenModel>::empty()
        =~= seq![TokenModel::Bytes(entries[i].0)] + entries[i].1);
}

proof fn lemma_entries_tokens_concat(
    a: Seq<(Seq<u8>, Seq<TokenModel>)>,
    b: Seq<(Seq<u8>, Seq<TokenModel>)>,
)
    ensures
        entries_tokens(a + b) == entries_tokens(a) + entries_tokens(b),
    decreases a.len(),
{
    if a.len() == 0 {
        assert(a + b =~= b);
        assert(entries_tokens(a) + entries_tokens(b) =~= entries_tokens(b));
    } else {
        assert((a + b).first() == a.first());
        assert((a + b).drop_first() =~= a.drop_first() + b);
        lemma_entries_tokens_concat(a.drop_first(), b);
        assert(seq![TokenModel::Bytes(a.first().0)] + a.first().1 + (entries_tokens(
            a.drop_first(),
        ) + entries_tokens(b)) =~= (seq![TokenModel::Bytes(a.first().0)] + a.first().1
            + entries_tokens(a.drop_first())) + entries_tokens(b));
    }
}

} // verus!
