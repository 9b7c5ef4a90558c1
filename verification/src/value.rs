//! The structured-value model that the serializer accepts, and the
//! specification of its canonical token encoding.

use vstd::prelude::*;

use crate::token::lemma_lex_total;
use crate::token::lemma_lex_trans;
use crate::token::lemma_stream_run_concat;
use crate::token::lex_lt;
use crate::token::replayable;
use crate::token::stream_run;
use crate::token::token_wf;
use crate::token::TokenModel;

verus! {

/// A shape of value that bencode cannot represent. Attempting to serialize
/// one fails with an unsupported-shape error naming it.
#[derive(Clone, Copy, Debug, PartialEq, Eq, Structural)]
pub enum Shape {
    Bool,
    Float,
    Char,
    Optional,
    Unit,
    Variant,
    Mapping,
}

/// One unit of the structured-object model handed to the serializer.
///
/// Representable shapes: integers of any width up to 128 bits (`Int`, `Uint`;
/// only magnitude and sign matter), byte strings (`Bytes`; text is its UTF-8
/// bytes), ordered sequences (`List`), and records of named fields
/// (`Record`). The remaining variants stand for value shapes the format
/// deliberately has no representation for; serializing them fails.
pub enum Value {
    Int(i128),
    Uint(u128),
    Bytes(Vec<u8>),
    List(Vec<Value>),
    Record(Vec<(Vec<u8>, Value)>),
    Bool(bool),
    Float,
    Char(char),
    Optional,
    Unit,
    Variant,
    Mapping,
}

/// The mathematical model of a `Value`: integers are unbounded, byte strings
/// and containers are sequences.
pub enum ValueModel {
    Int(int),
    Bytes(Seq<u8>),
    List(Seq<ValueModel>),
    Record(Seq<(Seq<u8>, ValueModel)>),
    Bool(bool),
    Float,
    Char(char),
    Optional,
    Unit,
    Variant,
    Mapping,
}

impl Value {
    /// Model of a sequence of list elements.
    pub open spec fn models(es: Seq<Value>) -> Seq<ValueModel>
        decreases es,
    {
        if es.len() == 0 {
            Seq::empty()
        } else {
            seq![es.first()@] + Self::models(es.drop_first())
        }
    }

    /// Model of a sequence of record fields.
    pub open spec fn field_models(fs: Seq<(Vec<u8>, Value)>) -> Seq<(Seq<u8>, ValueModel)>
        decreases fs,
    {
        if fs.len() == 0 {
            Seq::empty()
        } else {
            seq![(fs.first().0@, fs.first().1@)] + Self::field_models(fs.drop_first())
        }
    }
}

/// What serializing one value yields: its token stream, or the failure that
/// aborts the whole serialization.
pub enum SerOutcome {
    Output(Seq<TokenModel>),
    Unsupported(Shape),
    TooDeep,
}

/// What collecting the fields of one record yields: the canonical sorted
/// (name, token stream) entries, or the first field failure.
pub enum CollectOutcome {
    Entries(Seq<(Seq<u8>, Seq<TokenModel>)>),
    Unsupported(Shape),
    TooDeep,
}

/// Inserts `(key, toks)` into entries sorted by strictly increasing byte
/// order of keys. An entry with the same key is overwritten, so keys stay
/// unique.
pub open spec fn sorted_insert(
    entries: Seq<(Seq<u8>, Seq<TokenModel>)>,
    key: Seq<u8>,
    toks: Seq<TokenModel>,
) -> Seq<(Seq<u8>, Seq<TokenModel>)>
    decreases entries.len(),
{
    if entries.len() == 0 {
        seq![(key, toks)]
    } else if lex_lt(key, entries.first().0) {
        seq![(key, toks)] + entries
    } else if key == entries.first().0 {
        seq![(key, toks)] + entries.drop_first()
    } else {
        seq![entries.first()] + sorted_insert(entries.drop_first(), key, toks)
    }
}

/// The canonical token encoding of `v` with `budget` container levels still
/// open for use. Scalars encode as one token; a list opens a level, encodes
/// its elements in order at `budget - 1`, and closes; a record collects its
/// fields at `budget - 1`, sorts them by name, and frames them as a
/// dictionary; unrepresentable shapes fail. Record fields are processed
/// (and may fail) before the dictionary's own level is charged, mirroring
/// the serializer, which buffers every field before framing the dictionary.
pub open spec fn serialized(v: ValueModel, budget: nat) -> SerOutcome
    decreases v, 0int,
{
    match v {
        ValueModel::Int(n) => SerOutcome::Output(seq![TokenModel::Int(n)]),
        ValueModel::Bytes(b) => SerOutcome::Output(seq![TokenModel::Bytes(b)]),
        ValueModel::List(es) => {
            if budget == 0 {
                SerOutcome::TooDeep
            } else {
                match serialized_elems(es, 0, (budget - 1) as nat) {
                    SerOutcome::Output(ts) => SerOutcome::Output(
                        seq![TokenModel::List] + ts + seq![TokenModel::End],
                    ),
                    e => e,
                }
            }
        },
        ValueModel::Record(fs) => {
            let sub = if budget == 0 {
                0nat
            } else {
                (budget - 1) as nat
            };
            match collected_fields(fs, 0, sub, Seq::empty()) {
                CollectOutcome::Entries(entries) => {
                    if budget == 0 {
                        SerOutcome::TooDeep
                    } else {
                        SerOutcome::Output(
                            seq![TokenModel::Dict] + entries_tokens(entries)
                                + seq![TokenModel::End],
                        )
                    }
                },
                CollectOutcome::Unsupported(s) => SerOutcome::Unsupported(s),
                CollectOutcome::TooDeep => SerOutcome::TooDeep,
            }
        },
        ValueModel::Bool(_) => SerOutcome::Unsupported(Shape::Bool),
        ValueModel::Float => SerOutcome::Unsupported(Shape::Float),
        ValueModel::Char(_) => SerOutcome::Unsupported(Shape::Char),
        ValueModel::Optional => SerOutcome::Unsupported(Shape::Optional),
        ValueModel::Unit => SerOutcome::Unsupported(Shape::Unit),
        ValueModel::Variant => SerOutcome::Unsupported(Shape::Variant),
        ValueModel::Mapping => SerOutcome::Unsupported(Shape::Mapping),
    }
}

/// The concatenated token streams of the list elements from index `i` on,
/// or the first element failure.
pub open spec fn serialized_elems(es: Seq<ValueModel>, i: int, budget: nat) -> SerOutcome
    decreases es, es.len() - i,
{
    if i < 0 || i >= es.len() {
        SerOutcome::Output(Seq::empty())
    } else {
        match serialized(es[i], budget) {
            SerOutcome::Output(ts) => match serialized_elems(es, i + 1, budget) {
                SerOutcome::Output(rest) => SerOutcome::Output(ts + rest),
                e => e,
            },
            e => e,
        }
    }
}

/// Folds the record fields from index `i` on into `acc` by sorted
/// insertion, in declaration order, or stops at the first field failure.
pub open spec fn collected_fields(
    fs: Seq<(Seq<u8>, ValueModel)>,
    i: int,
    budget: nat,
    acc: Seq<(Seq<u8>, Seq<TokenModel>)>,
) -> CollectOutcome
    decreases fs, fs.len() - i,
{
    if i < 0 || i >= fs.len() {
        CollectOutcome::Entries(acc)
    } else {
        match serialized(fs[i].1, budget) {
            SerOutcome::Output(ts) => collected_fields(
                fs,
                i + 1,
                budget,
                sorted_insert(acc, fs[i].0, ts),
            ),
            SerOutcome::Unsupported(s) => CollectOutcome::Unsupported(s),
            SerOutcome::TooDeep => CollectOutcome::TooDeep,
        }
    }
}

/// The token stream of a dictionary body: for each entry in order, its name
/// as a byte-string token, then its value's tokens.
pub open spec fn entries_tokens(entries: Seq<(Seq<u8>, Seq<TokenModel>)>) -> Seq<TokenModel>
    decreases entries.len(),
{
    if entries.len() == 0 {
        Seq::empty()
    } else {
        seq![TokenModel::Bytes(entries.first().0)] + entries.first().1 + entries_tokens(
            entries.drop_first(),
        )
    }
}

/// Whether the format can represent `v` at all.
pub open spec fn representable(v: ValueModel) -> bool
    decreases v, 0int,
{
    match v {
        ValueModel::Int(_) => true,
        ValueModel::Bytes(_) => true,
        ValueModel::List(es) => elems_representable(es, 0),
        ValueModel::Record(fs) => fields_representable(fs, 0),
        _ => false,
    }
}

pub open spec fn elems_representable(es: Seq<ValueModel>, i: int) -> bool
    decreases es, es.len() - i,
{
    if i < 0 || i >= es.len() {
        true
    } else {
        representable(es[i]) && elems_representable(es, i + 1)
    }
}

pub open spec fn fields_representable(fs: Seq<(Seq<u8>, ValueModel)>, i: int) -> bool
    decreases fs, fs.len() - i,
{
    if i < 0 || i >= fs.len() {
        true
    } else {
        representable(fs[i].1) && fields_representable(fs, i + 1)
    }
}

/// How many container levels `v` needs: 0 for scalars, one more than the
/// deepest child for lists and records.
pub open spec fn nesting_depth(v: ValueModel) -> nat
    decreases v, 0int,
{
    match v {
        ValueModel::List(es) => 1 + elems_depth(es, 0),
        ValueModel::Record(fs) => 1 + fields_depth(fs, 0),
        _ => 0,
    }
}

pub open spec fn elems_depth(es: Seq<ValueModel>, i: int) -> nat
    decreases es, es.len() - i,
{
    if i < 0 || i >= es.len() {
        0
    } else {
        let d = nesting_depth(es[i]);
        let rest = elems_depth(es, i + 1);
        if d >= rest {
            d
        } else {
            rest
        }
    }
}

pub open spec fn fields_depth(fs: Seq<(Seq<u8>, ValueModel)>, i: int) -> nat
    decreases fs, fs.len() - i,
{
    if i < 0 || i >= fs.len() {
        0
    } else {
        let d = nesting_depth(fs[i].1);
        let rest = fields_depth(fs, i + 1);
        if d >= rest {
            d
        } else {
            rest
        }
    }
}

/// Integer magnitudes and byte lengths in `v` fit the encoder's 128-bit
/// limits; true of the model of every `Value`.
pub open spec fn value_wf(v: ValueModel) -> bool
    decreases v, 0int,
{
    match v {
        ValueModel::Int(n) => -(u128::MAX as int) <= n <= u128::MAX as int,
        ValueModel::Bytes(b) => b.len() <= u128::MAX,
        ValueModel::List(es) => elems_wf(es, 0),
        ValueModel::Record(fs) => fields_wf(fs, 0),
        _ => true,
    }
}

pub open spec fn elems_wf(es: Seq<ValueModel>, i: int) -> bool
    decreases es, es.len() - i,
{
    if i < 0 || i >= es.len() {
        true
    } else {
        value_wf(es[i]) && elems_wf(es, i + 1)
    }
}

pub open spec fn fields_wf(fs: Seq<(Seq<u8>, ValueModel)>, i: int) -> bool
    decreases fs, fs.len() - i,
{
    if i < 0 || i >= fs.len() {
        true
    } else {
        fs[i].0.len() <= u128::MAX && value_wf(fs[i].1) && fields_wf(fs, i + 1)
    }
}

/// Every entry has an encodable key and a value stream that replays cleanly
/// with `budget` levels of headroom.
pub open spec fn entries_ok(entries: Seq<(Seq<u8>, Seq<TokenModel>)>, budget: nat) -> bool {
    forall|j: int|
        0 <= j < entries.len() ==> (#[trigger] entries[j]).0.len() <= u128::MAX && replayable(
            entries[j].1,
            budget,
        )
}

/// Keys appear in strictly increasing byte order.
pub open spec fn entries_sorted(entries: Seq<(Seq<u8>, Seq<TokenModel>)>) -> bool {
    forall|j: int, k: int|
        #![trigger entries[j], entries[k]]
        0 <= j < k < entries.len() ==> lex_lt(entries[j].0, entries[k].0)
}

/// Every entry of a sorted insertion is the inserted pair or one of the old
/// entries.
pub proof fn lemma_sorted_insert_members(
    entries: Seq<(Seq<u8>, Seq<TokenModel>)>,
    key: Seq<u8>,
    toks: Seq<TokenModel>,
)
    ensures
        forall|j: int|
            0 <= j < sorted_insert(entries, key, toks).len() ==> (#[trigger] sorted_insert(
                entries,
                key,
                toks,
            )[j] == (key, toks) || exists|q: int|
                0 <= q < entries.len() && (#[trigger] entries[q]) == sorted_insert(entries, key, toks)[j]),
    decreases entries.len(),
{
    let res = sorted_insert(entries, key, toks);
    if entries.len() == 0 {
    } else if lex_lt(key, entries.first().0) {
        assert forall|j: int| #![trigger res[j]] 1 <= j < res.len() implies exists|q: int|
            0 <= q < entries.len() && (#[trigger] entries[q]) == res[j] by {
            assert(entries[j - 1] == res[j]);
        }
    } else if key == entries.first().0 {
        assert forall|j: int| #![trigger res[j]] 1 <= j < res.len() implies exists|q: int|
            0 <= q < entries.len() && (#[trigger] entries[q]) == res[j] by {
            assert(entries.drop_first()[j - 1] == entries[j]);
            assert(entries[j] == res[j]);
        }
    } else {
        lemma_sorted_insert_members(entries.drop_first(), key, toks);
        let rec = sorted_insert(entries.drop_first(), key, toks);
        assert(res[0] == entries[0]);
        assert forall|j: int| #![trigger res[j]] 1 <= j < res.len() implies (res[j] == (key, toks) || exists|q: int|
            0 <= q < entries.len() && (#[trigger] entries[q]) == res[j]) by {
            assert(res[j] == rec[j - 1]);
            if rec[j - 1] != (key, toks) {
                let q = choose|q: int|
                    0 <= q < entries.drop_first().len() && (#[trigger] entries.drop_first()[q]) == rec[j - 1];
                assert(entries[q + 1] == rec[j - 1]);
            }
        }
    }
}

pub proof fn lemma_sorted_insert_entries_ok(
    entries: Seq<(Seq<u8>, Seq<TokenModel>)>,
    key: Seq<u8>,
    toks: Seq<TokenModel>,
    budget: nat,
)
    requires
        entries_ok(entries, budget),
        key.len() <= u128::MAX,
        replayable(toks, budget),
    ensures
        entries_ok(sorted_insert(entries, key, toks), budget),
{
    lemma_sorted_insert_members(entries, key, toks);
}

/// Sorted insertion keeps keys strictly increasing.
pub proof fn lemma_sorted_insert_sorted(
    entries: Seq<(Seq<u8>, Seq<TokenModel>)>,
    key: Seq<u8>,
    toks: Seq<TokenModel>,
)
    requires
        entries_sorted(entries),
    ensures
        entries_sorted(sorted_insert(entries, key, toks)),
    decreases entries.len(),
{
    let res = sorted_insert(entries, key, toks);
    if entries.len() == 0 {
    } else if lex_lt(key, entries.first().0) {
        assert forall|j: int, k: int|
            #![trigger res[j], res[k]]
            0 <= j < k < res.len() implies lex_lt(res[j].0, res[k].0) by {
            if j == 0 {
                assert(res[k] == entries[k - 1]);
                if k > 1 {
                    assert(lex_lt(entries.first().0, entries[k - 1].0));
                    lemma_lex_trans(key, entries.first().0, entries[k - 1].0);
                }
            } else {
                assert(res[j] == entries[j - 1]);
                assert(res[k] == entries[k - 1]);
            }
        }
    } else if key == entries.first().0 {
        assert forall|j: int, k: int|
            #![trigger res[j], res[k]]
            0 <= j < k < res.len() implies lex_lt(res[j].0, res[k].0) by {
            if j == 0 {
                assert(res[k] == entries[k]);
                assert(lex_lt(entries[0].0, entries[k].0));
            } else {
                assert(res[j] == entries[j]);
                assert(res[k] == entries[k]);
            }
        }
    } else {
        lemma_lex_total(key, entries.first().0);
        assert(lex_lt(entries.first().0, key));
        assert(entries_sorted(entries.drop_first())) by {
            assert forall|j: int, k: int|
                #![trigger entries.drop_first()[j], entries.drop_first()[k]]
                0 <= j < k < entries.drop_first().len() implies lex_lt(
                entries.drop_first()[j].0,
                entries.drop_first()[k].0,
            ) by {
                assert(entries.drop_first()[j] == entries[j + 1]);
                assert(entries.drop_first()[k] == entries[k + 1]);
            }
        }
        lemma_sorted_insert_sorted(entries.drop_first(), key, toks);
        lemma_sorted_insert_members(entries.drop_first(), key, toks);
        let rec = sorted_insert(entries.drop_first(), key, toks);
        assert forall|j: int, k: int|
            #![trigger res[j], res[k]]
            0 <= j < k < res.len() implies lex_lt(res[j].0, res[k].0) by {
            if j == 0 {
                assert(res[k] == rec[k - 1]);
                if rec[k - 1] == (key, toks) {
                    assert(lex_lt(entries.first().0, key));
                } else {
                    let q = choose|q: int|
                        0 <= q < entries.drop_first().len() && (#[trigger] entries.drop_first()[q]) == rec[k
                            - 1];
                    assert(entries[q + 1] == rec[k - 1]);
                    assert(lex_lt(entries[0].0, entries[q + 1].0));
                }
            } else {
                assert(res[j] == rec[j - 1]);
                assert(res[k] == rec[k - 1]);
            }
        }
    }
}

/// Sorted insertions with distinct keys commute: the collected mapping
/// depends on which (key, value) pairs went in, not on their order.
pub proof fn lemma_sorted_insert_commutes(
    entries: Seq<(Seq<u8>, Seq<TokenModel>)>,
    k1: Seq<u8>,
    t1: Seq<TokenModel>,
    k2: Seq<u8>,
    t2: Seq<TokenModel>,
)
    requires
        k1 != k2,
    ensures
        sorted_insert(sorted_insert(entries, k1, t1), k2, t2) == sorted_insert(
            sorted_insert(entries, k2, t2),
            k1,
            t1,
        ),
    decreases entries.len(),
{
    lemma_lex_total(k1, k2);
    if entries.len() == 0 {
        lemma_two_inserts_into_empty(k1, t1, k2, t2);
    } else {
        let h = entries.first();
        let rest = entries.drop_first();
        lemma_lex_total(k1, h.0);
        lemma_lex_total(k2, h.0);
        if !lex_lt(k1, h.0) && k1 != h.0 && !lex_lt(k2, h.0) && k2 != h.0 {
            lemma_sorted_insert_commutes(rest, k1, t1, k2, t2);
            assert(sorted_insert(entries, k1, t1) == seq![h] + sorted_insert(rest, k1, t1));
            assert((seq![h] + sorted_insert(rest, k1, t1)).first() == h);
            assert((seq![h] + sorted_insert(rest, k1, t1)).drop_first() =~= sorted_insert(
                rest,
                k1,
                t1,
            ));
            assert(sorted_insert(sorted_insert(entries, k1, t1), k2, t2) == seq![h]
                + sorted_insert(sorted_insert(rest, k1, t1), k2, t2));
            assert(sorted_insert(entries, k2, t2) == seq![h] + sorted_insert(rest, k2, t2));
            assert((seq![h] + sorted_insert(rest, k2, t2)).first() == h);
            assert((seq![h] + sorted_insert(rest, k2, t2)).drop_first() =~= sorted_insert(
                rest,
                k2,
                t2,
            ));
            assert(sorted_insert(sorted_insert(entries, k2, t2), k1, t1) == seq![h]
                + sorted_insert(sorted_insert(rest, k2, t2), k1, t1));
        } else if (lex_lt(k1, h.0) || k1 == h.0) && !lex_lt(k2, h.0) && k2 != h.0 {
            lemma_one_low_one_high(entries, k1, t1, k2, t2);
        } else if (lex_lt(k2, h.0) || k2 == h.0) && !lex_lt(k1, h.0) && k1 != h.0 {
            lemma_one_low_one_high(entries, k2, t2, k1, t1);
        } else {
            lemma_both_low(entries, k1, t1, k2, t2);
        }
    }
}

proof fn lemma_two_inserts_into_empty(
    k1: Seq<u8>,
    t1: Seq<TokenModel>,
    k2: Seq<u8>,
    t2: Seq<TokenModel>,
)
    requires
        k1 != k2,
    ensures
        sorted_insert(sorted_insert(Seq::empty(), k1, t1), k2, t2) == sorted_insert(
            sorted_insert(Seq::empty(), k2, t2),
            k1,
            t1,
        ),
{
    lemma_lex_total(k1, k2);
    let e0: Seq<(Seq<u8>, Seq<TokenModel>)> = Seq::empty();
    assert(sorted_insert(e0, k1, t1) == seq![(k1, t1)]);
    assert(sorted_insert(e0, k2, t2) == seq![(k2, t2)]);
    assert(seq![(k1, t1)].drop_first() =~= e0);
    assert(seq![(k2, t2)].drop_first() =~= e0);
    if lex_lt(k1, k2) {
        assert(sorted_insert(seq![(k1, t1)], k2, t2) == seq![(k1, t1)] + sorted_insert(
            e0,
            k2,
            t2,
        ));
        assert(sorted_insert(seq![(k2, t2)], k1, t1) == seq![(k1, t1)] + seq![(k2, t2)]);
    } else {
        assert(sorted_insert(seq![(k1, t1)], k2, t2) == seq![(k2, t2)] + seq![(k1, t1)]);
        assert(sorted_insert(seq![(k2, t2)], k1, t1) == seq![(k2, t2)] + sorted_insert(
            e0,
            k1,
            t1,
        ));
    }
}

/// The case where `ka` sorts at or before the head and `kb` sorts after it.
proof fn lemma_one_low_one_high(
    entries: Seq<(Seq<u8>, Seq<TokenModel>)>,
    ka: Seq<u8>,
    ta: Seq<TokenModel>,
    kb: Seq<u8>,
    tb: Seq<TokenModel>,
)
    requires
        ka != kb,
        entries.len() > 0,
        lex_lt(ka, entries.first().0) || ka == entries.first().0,
        !lex_lt(kb, entries.first().0),
        kb != entries.first().0,
    ensures
        sorted_insert(sorted_insert(entries, ka, ta), kb, tb) == sorted_insert(
            sorted_insert(entries, kb, tb),
            ka,
            ta,
        ),
{
    let h = entries.first();
    let rest = entries.drop_first();
    lemma_lex_total(ka, h.0);
    lemma_lex_total(kb, h.0);
    lemma_lex_total(ka, kb);
    assert(lex_lt(h.0, kb));
    if lex_lt(ka, h.0) {
        lemma_lex_trans(ka, h.0, kb);
    } else {
        assert(ka == h.0);
    }
    assert(lex_lt(ka, kb));
    let tail = if ka == h.0 {
        rest
    } else {
        entries
    };
    assert(sorted_insert(entries, ka, ta) == seq![(ka, ta)] + tail);
    assert((seq![(ka, ta)] + tail).first() == (ka, ta));
    assert((seq![(ka, ta)] + tail).drop_first() =~= tail);
    assert(sorted_insert(sorted_insert(entries, ka, ta), kb, tb) == seq![(ka, ta)]
        + sorted_insert(tail, kb, tb));
    assert(sorted_insert(entries, kb, tb) == seq![h] + sorted_insert(rest, kb, tb));
    assert((seq![h] + sorted_insert(rest, kb, tb)).first() == h);
    assert((seq![h] + sorted_insert(rest, kb, tb)).drop_first() =~= sorted_insert(rest, kb, tb));
    if ka == h.0 {
        assert(sorted_insert(sorted_insert(entries, kb, tb), ka, ta) == seq![(ka, ta)]
            + sorted_insert(rest, kb, tb));
        assert(sorted_insert(tail, kb, tb) == sorted_insert(rest, kb, tb));
    } else {
        assert(sorted_insert(sorted_insert(entries, kb, tb), ka, ta) == seq![(ka, ta)] + (
        seq![h] + sorted_insert(rest, kb, tb)));
        assert(sorted_insert(tail, kb, tb) == seq![h] + sorted_insert(rest, kb, tb));
    }
}

/// The case where both keys sort at or before the head entry.
proof fn lemma_both_low(
    entries: Seq<(Seq<u8>, Seq<TokenModel>)>,
    k1: Seq<u8>,
    t1: Seq<TokenModel>,
    k2: Seq<u8>,
    t2: Seq<TokenModel>,
)
    requires
        k1 != k2,
        entries.len() > 0,
        lex_lt(k1, entries.first().0) || k1 == entries.first().0,
        lex_lt(k2, entries.first().0) || k2 == entries.first().0,
    ensures
        sorted_insert(sorted_insert(entries, k1, t1), k2, t2) == sorted_insert(
            sorted_insert(entries, k2, t2),
            k1,
            t1,
        ),
{
    let h = entries.first();
    lemma_lex_total(k1, h.0);
    lemma_lex_total(k2, h.0);
    lemma_lex_total(k1, k2);
    if lex_lt(k2, k1) {
        lemma_low_pair(entries, k2, t2, k1, t1);
    } else {
        lemma_low_pair(entries, k1, t1, k2, t2);
    }
}

/// Both keys sort at or before the head, with `ka` strictly below `kb`:
/// either insertion order yields `ka`, then `kb`'s insertion into the rest.
proof fn lemma_low_pair(
    entries: Seq<(Seq<u8>, Seq<TokenModel>)>,
    ka: Seq<u8>,
    ta: Seq<TokenModel>,
    kb: Seq<u8>,
    tb: Seq<TokenModel>,
)
    requires
        lex_lt(ka, kb),
        entries.len() > 0,
        lex_lt(ka, entries.first().0) || ka == entries.first().0,
        lex_lt(kb, entries.first().0) || kb == entries.first().0,
    ensures
        sorted_insert(sorted_insert(entries, ka, ta), kb, tb) == sorted_insert(
            sorted_insert(entries, kb, tb),
            ka,
            ta,
        ),
{
    let h = entries.first();
    let rest = entries.drop_first();
    lemma_lex_total(ka, h.0);
    lemma_lex_total(kb, h.0);
    lemma_lex_total(ka, kb);
    assert(ka != h.0) by {
        if ka == h.0 {
            if kb == h.0 {
            } else {
                lemma_lex_trans(ka, kb, h.0);
                lemma_lex_total(h.0, h.0);
            }
        }
    }
    assert(lex_lt(ka, h.0));
    let tailb = if kb == h.0 {
        rest
    } else {
        entries
    };
    assert(sorted_insert(entries, ka, ta) == seq![(ka, ta)] + entries);
    assert(sorted_insert(entries, kb, tb) == seq![(kb, tb)] + tailb);
    assert((seq![(ka, ta)] + entries).first() == (ka, ta));
    assert((seq![(ka, ta)] + entries).drop_first() =~= entries);
    assert((seq![(kb, tb)] + tailb).first() == (kb, tb));
    assert(sorted_insert(sorted_insert(entries, ka, ta), kb, tb) == seq![(ka, ta)]
        + sorted_insert(entries, kb, tb));
    assert(sorted_insert(sorted_insert(entries, kb, tb), ka, ta) == seq![(ka, ta)] + (
    seq![(kb, tb)] + tailb));
}

/// A dictionary body built from good entries replays cleanly.
pub proof fn lemma_entries_tokens_replayable(
    entries: Seq<(Seq<u8>, Seq<TokenModel>)>,
    budget: nat,
)
    requires
        entries_ok(entries, budget),
    ensures
        replayable(entries_tokens(entries), budget),
    decreases entries.len(),
{
    let body = entries_tokens(entries);
    if entries.len() == 0 {
        assert(body =~= Seq::<TokenModel>::empty());
        assert forall|depth: int, max: int| 0 <= depth && depth + budget <= max implies
            #[trigger] stream_run(body, depth, max) == Some(depth) by {
            assert(stream_run(Seq::<TokenModel>::empty(), depth, max) == Some(depth));
        }
    } else {
        assert(entries_ok(entries.drop_first(), budget)) by {
            assert forall|j: int| 0 <= j < entries.drop_first().len() implies (
            #[trigger] entries.drop_first()[j]).0.len() <= u128::MAX && replayable(
                entries.drop_first()[j].1,
                budget,
            ) by {
                assert(entries.drop_first()[j] == entries[j + 1]);
            }
        }
        lemma_entries_tokens_replayable(entries.drop_first(), budget);
        let e0 = entries[0];
        assert(entries.first() == e0);
        let head = seq![TokenModel::Bytes(e0.0)];
        let rest = entries_tokens(entries.drop_first());
        assert forall|depth: int, max: int| 0 <= depth && depth + budget <= max implies
            #[trigger] stream_run(body, depth, max) == Some(depth) by {
            lemma_stream_run_concat(head + e0.1, rest, depth, max);
            lemma_stream_run_concat(head, e0.1, depth, max);
            assert(token_wf(TokenModel::Bytes(e0.0)));
            assert(head.drop_first() =~= Seq::<TokenModel>::empty());
            assert(stream_run(Seq::<TokenModel>::empty(), depth, max) == Some(depth));
            assert(stream_run(head, depth, max) == Some(depth));
            assert(stream_run(e0.1, depth, max) == Some(depth));
            assert(stream_run(rest, depth, max) == Some(depth));
            assert(body == (head + e0.1) + rest);
        }
    }
}

/// The token stream of any successfully serialized well-formed value
/// replays cleanly within the budget it was serialized under.
pub proof fn lemma_serialized_replayable(v: ValueModel, budget: nat)
    requires
        value_wf(v),
        serialized(v, budget) is Output,
    ensures
        replayable(serialized(v, budget)->Output_0, budget),
    decreases v, 1int,
{
    match v {
        ValueModel::Int(n) => {
            let ts = seq![TokenModel::Int(n)];
            assert forall|depth: int, max: int| 0 <= depth && depth + budget <= max implies
                #[trigger] stream_run(ts, depth, max) == Some(depth) by {
                assert(token_wf(TokenModel::Int(n)));
                assert(ts.drop_first() =~= Seq::<TokenModel>::empty());
                assert(stream_run(Seq::<TokenModel>::empty(), depth, max) == Some(depth));
            }
        },
        ValueModel::Bytes(b) => {
            let ts = seq![TokenModel::Bytes(b)];
            assert forall|depth: int, max: int| 0 <= depth && depth + budget <= max implies
                #[trigger] stream_run(ts, depth, max) == Some(depth) by {
                assert(token_wf(TokenModel::Bytes(b)));
                assert(ts.drop_first() =~= Seq::<TokenModel>::empty());
                assert(stream_run(Seq::<TokenModel>::empty(), depth, max) == Some(depth));
            }
        },
        ValueModel::List(es) => {
            let sub = (budget - 1) as nat;
            lemma_elems_replayable(es, 0, sub);
            let inner = serialized_elems(es, 0, sub)->Output_0;
            let ts = seq![TokenModel::List] + inner + seq![TokenModel::End];
            assert forall|depth: int, max: int| 0 <= depth && depth + budget <= max implies
                #[trigger] stream_run(ts, depth, max) == Some(depth) by {
                let a1 = seq![TokenModel::List];
                let a3 = seq![TokenModel::End];
                lemma_stream_run_concat(a1 + inner, a3, depth, max);
                lemma_stream_run_concat(a1, inner, depth, max);
                assert(a1.drop_first() =~= Seq::<TokenModel>::empty());
                assert(stream_run(Seq::<TokenModel>::empty(), depth + 1, max) == Some(depth + 1));
                assert(stream_run(Seq::<TokenModel>::empty(), depth, max) == Some(depth));
                assert(stream_run(a1, depth, max) == Some(depth + 1));
                assert(stream_run(inner, depth + 1, max) == Some(depth + 1));
                assert(a3.drop_first() =~= Seq::<TokenModel>::empty());
                assert(stream_run(a3, depth + 1, max) == Some(depth));
                assert(ts == (a1 + inner) + a3);
            }
        },
        ValueModel::Record(fs) => {
            let sub = (budget - 1) as nat;
            lemma_collected_replayable(fs, 0, sub, Seq::empty());
            let entries = collected_fields(fs, 0, sub, Seq::empty())->Entries_0;
            lemma_entries_tokens_replayable(entries, sub);
            let body = entries_tokens(entries);
            let ts = seq![TokenModel::Dict] + body + seq![TokenModel::End];
            assert forall|depth: int, max: int| 0 <= depth && depth + budget <= max implies
                #[trigger] stream_run(ts, depth, max) == Some(depth) by {
                let a1 = seq![TokenModel::Dict];
                let a3 = seq![TokenModel::End];
                lemma_stream_run_concat(a1 + body, a3, depth, max);
                lemma_stream_run_concat(a1, body, depth, max);
                assert(a1.drop_first() =~= Seq::<TokenModel>::empty());
                assert(stream_run(Seq::<TokenModel>::empty(), depth + 1, max) == Some(depth + 1));
                assert(stream_run(Seq::<TokenModel>::empty(), depth, max) == Some(depth));
                assert(stream_run(a1, depth, max) == Some(depth + 1));
                assert(stream_run(body, depth + 1, max) == Some(depth + 1));
                assert(a3.drop_first() =~= Seq::<TokenModel>::empty());
                assert(stream_run(a3, depth + 1, max) == Some(depth));
                assert(ts == (a1 + body) + a3);
            }
        },
        _ => {},
    }
}

pub proof fn lemma_elems_replayable(es: Seq<ValueModel>, i: int, budget: nat)
    requires
        0 <= i,
        elems_wf(es, i),
        serialized_elems(es, i, budget) is Output,
    ensures
        replayable(serialized_elems(es, i, budget)->Output_0, budget),
    decreases es, es.len() - i,
{
    if i >= es.len() {
        let ts = serialized_elems(es, i, budget)->Output_0;
        assert(ts =~= Seq::<TokenModel>::empty());
        assert forall|depth: int, max: int| 0 <= depth && depth + budget <= max implies
            #[trigger] stream_run(ts, depth, max) == Some(depth) by {
            assert(stream_run(Seq::<TokenModel>::empty(), depth, max) == Some(depth));
        }
    } else {
        lemma_serialized_replayable(es[i], budget);
        lemma_elems_replayable(es, i + 1, budget);
        let head = serialized(es[i], budget)->Output_0;
        let rest = serialized_elems(es, i + 1, budget)->Output_0;
        let ts = head + rest;
        assert forall|depth: int, max: int| 0 <= depth && depth + budget <= max implies
            #[trigger] stream_run(ts, depth, max) == Some(depth) by {
            lemma_stream_run_concat(head, rest, depth, max);
            assert(stream_run(head, depth, max) == Some(depth));
            assert(stream_run(rest, depth, max) == Some(depth));
        }
    }
}

pub proof fn lemma_collected_replayable(
    fs: Seq<(Seq<u8>, ValueModel)>,
    i: int,
    budget: nat,
    acc: Seq<(Seq<u8>, Seq<TokenModel>)>,
)
    requires
        0 <= i,
        fields_wf(fs, i),
        entries_ok(acc, budget),
        collected_fields(fs, i, budget, acc) is Entries,
    ensures
        entries_ok(collected_fields(fs, i, budget, acc)->Entries_0, budget),
    decreases fs, fs.len() - i,
{
    if i >= fs.len() {
    } else {
        lemma_serialized_replayable(fs[i].1, budget);
        let ts = serialized(fs[i].1, budget)->Output_0;
        lemma_sorted_insert_entries_ok(acc, fs[i].0, ts, budget);
        lemma_collected_replayable(fs, i + 1, budget, sorted_insert(acc, fs[i].0, ts));
    }
}

/// The entries a record collects are strictly sorted by key.
pub proof fn lemma_collected_sorted(
    fs: Seq<(Seq<u8>, ValueModel)>,
    i: int,
    budget: nat,
    acc: Seq<(Seq<u8>, Seq<TokenModel>)>,
)
    requires
        0 <= i,
        entries_sorted(acc),
        collected_fields(fs, i, budget, acc) is Entries,
    ensures
        entries_sorted(collected_fields(fs, i, budget, acc)->Entries_0),
    decreases fs.len() - i,
{
    if i >= fs.len() {
    } else {
        match serialized(fs[i].1, budget) {
            SerOutcome::Output(ts) => {
                lemma_sorted_insert_sorted(acc, fs[i].0, ts);
                lemma_collected_sorted(fs, i + 1, budget, sorted_insert(acc, fs[i].0, ts));
            },
            _ => {},
        }
    }
}

/// Index view of `Value::models`: element `i` of the model is the model of
/// element `i`.
pub proof fn lemma_models_index(es: Seq<Value>)
    ensures
        Value::models(es).len() == es.len(),
        forall|i: int| 0 <= i < es.len() ==> Value::models(es)[i] == es[i]@,
    decreases es.len(),
{
    if es.len() > 0 {
        lemma_models_index(es.drop_first());
        assert forall|i: int| 0 <= i < es.len() implies Value::models(es)[i] == es[i]@ by {
            if i > 0 {
                assert(Value::models(es) == seq![es.first()@] + Value::models(es.drop_first()));
                assert((seq![es.first()@] + Value::models(es.drop_first()))[i] == Value::models(
                    es.drop_first(),
                )[i - 1]);
                assert(es.drop_first()[i - 1] == es[i]);
            }
        }
    }
}

/// Index view of `Value::field_models`.
pub proof fn lemma_field_models_index(fs: Seq<(Vec<u8>, Value)>)
    ensures
        Value::field_models(fs).len() == fs.len(),
        forall|i: int|
            0 <= i < fs.len() ==> Value::field_models(fs)[i] == (fs[i].0@, fs[i].1@),
    decreases fs.len(),
{
    if fs.len() > 0 {
        lemma_field_models_index(fs.drop_first());
        assert forall|i: int| 0 <= i < fs.len() implies Value::field_models(fs)[i] == (
        fs[i].0@,
        fs[i].1@,
        ) by {
            if i > 0 {
                assert(Value::field_models(fs) == seq![(fs.first().0@, fs.first().1@)]
                    + Value::field_models(fs.drop_first()));
                assert((seq![(fs.first().0@, fs.first().1@)] + Value::field_models(
                    fs.drop_first(),
                ))[i] == Value::field_models(fs.drop_first())[i - 1]);
                assert(fs.drop_first()[i - 1] == fs[i]);
            }
        }
    }
}

/// The model of every `Value` is well formed: its magnitudes and lengths
/// fit the encoder's limits.
pub proof fn lemma_value_wf(v: Value)
    ensures
        value_wf(v@),
    decreases v, 1int,
{
    match v {
        Value::Bytes(b) => {
            assert(b.len() <= usize::MAX);
        },
        Value::List(es) => {
            lemma_values_wf(es@, 0);
            assert(v@ == ValueModel::List(Value::models(es@)));
        },
        Value::Record(fs) => {
            lemma_field_values_wf(fs@, 0);
            assert(v@ == ValueModel::Record(Value::field_models(fs@)));
        },
        _ => {},
    }
}

pub proof fn lemma_values_wf(es: Seq<Value>, i: int)
    requires
        0 <= i,
    ensures
        elems_wf(Value::models(es), i),
    decreases es, es.len() - i,
{
    lemma_models_index(es);
    if i < es.len() {
        lemma_value_wf(es[i]);
        lemma_values_wf(es, i + 1);
    }
}

pub proof fn lemma_field_values_wf(fs: Seq<(Vec<u8>, Value)>, i: int)
    requires
        0 <= i,
    ensures
        fields_wf(Value::field_models(fs), i),
    decreases fs, fs.len() - i,
{
    lemma_field_models_index(fs);
    if i < fs.len() {
        assert(fs[i].0.len() <= usize::MAX);
        lemma_value_wf(fs[i].1);
        lemma_field_values_wf(fs, i + 1);
    }
}

impl View for Value {
    type V = ValueModel;

    open spec fn view(&self) -> ValueModel
        decreases self,
    {
        match self {
            Value::Int(n) => ValueModel::Int(*n as int),
            Value::Uint(n) => ValueModel::Int(*n as int),
            Value::Bytes(b) => ValueModel::Bytes(b@),
            Value::List(es) => ValueModel::List(Value::models(es@)),
            Value::Record(fs) => ValueModel::Record(Value::field_models(fs@)),
            Value::Bool(b) => ValueModel::Bool(*b),
            Value::Float => ValueModel::Float,
            Value::Char(c) => ValueModel::Char(*c),
            Value::Optional => ValueModel::Optional,
            Value::Unit => ValueModel::Unit,
            Value::Variant => ValueModel::Variant,
            Value::Mapping => ValueModel::Mapping,
        }
    }
}

} // verus!
