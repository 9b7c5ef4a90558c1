//! The laws of the canonical encoding, stated over the serialization
//! specification and proved once and for all.

use vstd::prelude::*;

use crate::decoder::decode_at;
use crate::decoder::lemma_decode_token_at;
use crate::decoder::DecodeStep;
use crate::token::lemma_lex_total;
use crate::token::lex_lt;
use crate::token::stream_bytes;
use crate::token::token_bytes;
use crate::token::token_wf;
use crate::token::TokenModel;
use crate::value::collected_fields;
use crate::value::elems_depth;
use crate::value::elems_representable;
use crate::value::entries_sorted;
use crate::value::fields_depth;
use crate::value::fields_representable;
use crate::value::lemma_collected_sorted;
use crate::value::lemma_sorted_insert_commutes;
use crate::value::nesting_depth;
use crate::value::representable;
use crate::value::serialized;
use crate::value::serialized_elems;
use crate::value::sorted_insert;
use crate::value::CollectOutcome;
use crate::value::SerOutcome;
use crate::value::ValueModel;

verus! {

proof fn lemma_singleton_bytes(t: TokenModel)
    ensures
        stream_bytes(seq![t]) == token_bytes(t),
{
    assert(seq![t].drop_first() =~= Seq::<TokenModel>::empty());
    assert(stream_bytes(Seq::<TokenModel>::empty()) =~= Seq::<u8>::empty());
    assert(token_bytes(t) + Seq::<u8>::empty() =~= token_bytes(t));
}

/// Round trip for integer scalars: serializing an integer always succeeds,
/// and decoding the resulting bytes yields exactly the integer token with
/// the original value, consuming the whole buffer.
pub proof fn lemma_int_round_trip(n: int, budget: nat)
    requires
        -(u128::MAX as int) <= n <= u128::MAX as int,
    ensures
        serialized(ValueModel::Int(n), budget) matches SerOutcome::Output(ts) && decode_at(
            stream_bytes(ts),
            0,
        ) == DecodeStep::Next(TokenModel::Int(n), stream_bytes(ts).len() as int),
{
    let t = TokenModel::Int(n);
    lemma_singleton_bytes(t);
    assert(token_wf(t));
    let tb = token_bytes(t);
    assert(tb.subrange(0, tb.len() as int) =~= tb);
    lemma_decode_token_at(tb, 0, t);
}

/// Round trip for byte-string scalars: serializing a byte string always
/// succeeds, and decoding the resulting bytes yields exactly the original
/// bytes, consuming the whole buffer.
pub proof fn lemma_bytes_round_trip(b: Seq<u8>, budget: nat)
    requires
        b.len() <= u128::MAX,
    ensures
        serialized(ValueModel::Bytes(b), budget) matches SerOutcome::Output(ts) && decode_at(
            stream_bytes(ts),
            0,
        ) == DecodeStep::Next(TokenModel::Bytes(b), stream_bytes(ts).len() as int),
{
    let t = TokenModel::Bytes(b);
    lemma_singleton_bytes(t);
    assert(token_wf(t));
    let tb = token_bytes(t);
    assert(tb.subrange(0, tb.len() as int) =~= tb);
    lemma_decode_token_at(tb, 0, t);
}

/// For every record whose fields collect successfully, the entries of the
/// emitted dictionary carry their keys in strictly increasing byte order,
/// whatever order the caller declared the fields in. The dictionary's token
/// stream is, by definition of `serialized`, exactly these entries in this
/// order framed by dict-open and dict-close.
pub proof fn lemma_record_keys_sorted(fields: Seq<(Seq<u8>, ValueModel)>, budget: nat)
    requires
        collected_fields(fields, 0, budget, Seq::empty()) is Entries,
    ensures
        entries_sorted(collected_fields(fields, 0, budget, Seq::empty())->Entries_0),
{
    lemma_collected_sorted(fields, 0, budget, Seq::empty());
}

/// Declaration order of a two-field record does not affect its output:
/// fields named `k2` then `k1` serialize to the same token stream as fields
/// named `k1` then `k2` with the same values attached to the same names,
/// whenever the record serializes at all.
pub proof fn lemma_two_field_order_irrelevant(
    k1: Seq<u8>,
    v1: ValueModel,
    k2: Seq<u8>,
    v2: ValueModel,
    budget: nat,
)
    requires
        k1 != k2,
        serialized(ValueModel::Record(seq![(k1, v1), (k2, v2)]), budget) is Output,
    ensures
        serialized(ValueModel::Record(seq![(k2, v2), (k1, v1)]), budget) == serialized(
            ValueModel::Record(seq![(k1, v1), (k2, v2)]),
            budget,
        ),
{
    let fs1 = seq![(k1, v1), (k2, v2)];
    let fs2 = seq![(k2, v2), (k1, v1)];
    let sub = if budget == 0 {
        0nat
    } else {
        (budget - 1) as nat
    };
    let e0: Seq<(Seq<u8>, Seq<TokenModel>)> = Seq::empty();
    assert(serialized(v1, sub) is Output && serialized(v2, sub) is Output) by {
        if serialized(v1, sub) is Output {
            assert(collected_fields(fs1, 0, sub, e0) == collected_fields(
                fs1,
                1,
                sub,
                sorted_insert(e0, k1, serialized(v1, sub)->Output_0),
            ));
        }
    }
    let t1 = serialized(v1, sub)->Output_0;
    let t2 = serialized(v2, sub)->Output_0;
    lemma_lex_total(k1, k2);
    let both = if lex_lt(k1, k2) {
        seq![(k1, t1), (k2, t2)]
    } else {
        seq![(k2, t2), (k1, t1)]
    };
    assert(sorted_insert(sorted_insert(e0, k1, t1), k2, t2) =~= both) by {
        assert(sorted_insert(e0, k1, t1) == seq![(k1, t1)]);
        if lex_lt(k1, k2) {
            assert(sorted_insert(seq![(k1, t1)], k2, t2) == seq![(k1, t1)] + sorted_insert(
                seq![(k1, t1)].drop_first(),
                k2,
                t2,
            ));
            assert(seq![(k1, t1)].drop_first() =~= Seq::<(Seq<u8>, Seq<TokenModel>)>::empty());
            assert(seq![(k1, t1)] + seq![(k2, t2)] =~= seq![(k1, t1), (k2, t2)]);
        } else {
            assert(sorted_insert(seq![(k1, t1)], k2, t2) == seq![(k2, t2)] + seq![(k1, t1)]);
            assert(seq![(k2, t2)] + seq![(k1, t1)] =~= seq![(k2, t2), (k1, t1)]);
        }
    }
    assert(sorted_insert(sorted_insert(e0, k2, t2), k1, t1) =~= both) by {
        assert(sorted_insert(e0, k2, t2) == seq![(k2, t2)]);
        if lex_lt(k1, k2) {
            assert(sorted_insert(seq![(k2, t2)], k1, t1) == seq![(k1, t1)] + seq![(k2, t2)]);
            assert(seq![(k1, t1)] + seq![(k2, t2)] =~= seq![(k1, t1), (k2, t2)]);
        } else {
            assert(sorted_insert(seq![(k2, t2)], k1, t1) == seq![(k2, t2)] + sorted_insert(
                seq![(k2, t2)].drop_first(),
                k1,
                t1,
            ));
            assert(seq![(k2, t2)].drop_first() =~= Seq::<(Seq<u8>, Seq<TokenModel>)>::empty());
            assert(seq![(k2, t2)] + seq![(k1, t1)] =~= seq![(k2, t2), (k1, t1)]);
        }
    }
    assert(fs1[0] == (k1, v1) && fs1[1] == (k2, v2));
    assert(fs2[0] == (k2, v2) && fs2[1] == (k1, v1));
    assert(collected_fields(fs1, 0, sub, e0) == collected_fields(
        fs1,
        1,
        sub,
        sorted_insert(e0, k1, t1),
    ));
    assert(collected_fields(fs1, 1, sub, sorted_insert(e0, k1, t1)) == collected_fields(
        fs1,
        2,
        sub,
        sorted_insert(sorted_insert(e0, k1, t1), k2, t2),
    ));
    assert(collected_fields(fs1, 2, sub, both) == CollectOutcome::Entries(both));
    assert(collected_fields(fs2, 0, sub, e0) == collected_fields(
        fs2,
        1,
        sub,
        sorted_insert(e0, k2, t2),
    ));
    assert(collected_fields(fs2, 1, sub, sorted_insert(e0, k2, t2)) == collected_fields(
        fs2,
        2,
        sub,
        sorted_insert(sorted_insert(e0, k2, t2), k1, t1),
    ));
    assert(collected_fields(fs2, 2, sub, both) == CollectOutcome::Entries(both));
    assert(collected_fields(fs1, 0, sub, e0) == CollectOutcome::Entries(both));
    assert(collected_fields(fs2, 0, sub, e0) == CollectOutcome::Entries(both));
}

/// Collection from index `i` on reads only those fields and the
/// accumulator.
proof fn lemma_collect_agree(
    fs1: Seq<(Seq<u8>, ValueModel)>,
    fs2: Seq<(Seq<u8>, ValueModel)>,
    i: int,
    budget: nat,
    acc: Seq<(Seq<u8>, Seq<TokenModel>)>,
)
    requires
        0 <= i,
        fs1.len() == fs2.len(),
        forall|q: int| i <= q < fs1.len() ==> fs1[q] == #[trigger] fs2[q],
    ensures
        collected_fields(fs1, i, budget, acc) == collected_fields(fs2, i, budget, acc),
    decreases fs1.len() - i,
{
    if i < fs1.len() {
        assert(fs1[i] == fs2[i]);
        match serialized(fs1[i].1, budget) {
            SerOutcome::Output(ts) => {
                lemma_collect_agree(fs1, fs2, i + 1, budget, sorted_insert(acc, fs1[i].0, ts));
            },
            _ => {},
        }
    }
}

/// Swapping two adjacent fields with distinct names does not change a
/// record's serialization, as long as both field values themselves
/// serialize under the record's per-field budget: declaration order feeds
/// only the sorted collection, never the output. (When a field fails, the
/// walk reports the first failure in declaration order, so order can pick
/// which error is reported, but never turn failure into output.)
pub proof fn lemma_adjacent_field_swap(fields: Seq<(Seq<u8>, ValueModel)>, j: int, budget: nat)
    requires
        0 <= j,
        j + 1 < fields.len(),
        fields[j].0 != fields[j + 1].0,
        serialized(
            fields[j].1,
            if budget == 0 {
                0nat
            } else {
                (budget - 1) as nat
            },
        ) is Output,
        serialized(
            fields[j + 1].1,
            if budget == 0 {
                0nat
            } else {
                (budget - 1) as nat
            },
        ) is Output,
    ensures
        serialized(
            ValueModel::Record(fields.update(j, fields[j + 1]).update(j + 1, fields[j])),
            budget,
        ) == serialized(ValueModel::Record(fields), budget),
{
    let sub = if budget == 0 {
        0nat
    } else {
        (budget - 1) as nat
    };
    let swapped = fields.update(j, fields[j + 1]).update(j + 1, fields[j]);
    lemma_swap_fold(fields, swapped, j, 0, sub, Seq::empty());
}

proof fn lemma_swap_fold(
    fields: Seq<(Seq<u8>, ValueModel)>,
    swapped: Seq<(Seq<u8>, ValueModel)>,
    j: int,
    i: int,
    budget: nat,
    acc: Seq<(Seq<u8>, Seq<TokenModel>)>,
)
    requires
        0 <= i <= j,
        j + 1 < fields.len(),
        fields[j].0 != fields[j + 1].0,
        swapped == fields.update(j, fields[j + 1]).update(j + 1, fields[j]),
        serialized(fields[j].1, budget) is Output,
        serialized(fields[j + 1].1, budget) is Output,
    ensures
        collected_fields(fields, i, budget, acc) == collected_fields(swapped, i, budget, acc),
    decreases j - i,
{
    if i < j {
        assert(swapped[i] == fields[i]);
        match serialized(fields[i].1, budget) {
            SerOutcome::Output(ts) => {
                lemma_swap_fold(fields, swapped, j, i + 1, budget, sorted_insert(
                    acc,
                    fields[i].0,
                    ts,
                ));
            },
            _ => {},
        }
    } else {
        let ka = fields[j].0;
        let ta = serialized(fields[j].1, budget)->Output_0;
        let kb = fields[j + 1].0;
        let tb = serialized(fields[j + 1].1, budget)->Output_0;
        assert(swapped[j] == fields[j + 1]);
        assert(swapped[j + 1] == fields[j]);
        assert(collected_fields(fields, j, budget, acc) == collected_fields(
            fields,
            j + 1,
            budget,
            sorted_insert(acc, ka, ta),
        ));
        assert(collected_fields(fields, j + 1, budget, sorted_insert(acc, ka, ta))
            == collected_fields(
            fields,
            j + 2,
            budget,
            sorted_insert(sorted_insert(acc, ka, ta), kb, tb),
        ));
        assert(collected_fields(swapped, j, budget, acc) == collected_fields(
            swapped,
            j + 1,
            budget,
            sorted_insert(acc, kb, tb),
        ));
        assert(collected_fields(swapped, j + 1, budget, sorted_insert(acc, kb, tb))
            == collected_fields(
            swapped,
            j + 2,
            budget,
            sorted_insert(sorted_insert(acc, kb, tb), ka, ta),
        ));
        lemma_sorted_insert_commutes(acc, ka, ta, kb, tb);
        assert(forall|q: int| j + 2 <= q < fields.len() ==> fields[q] == #[trigger] swapped[q]);
        lemma_collect_agree(
            fields,
            swapped,
            j + 2,
            budget,
            sorted_insert(sorted_insert(acc, ka, ta), kb, tb),
        );
    }
}

/// A value of an unrepresentable shape, anywhere in the tree, never
/// serializes: the outcome is a failure, not output.
pub proof fn lemma_unrepresentable_fails(v: ValueModel, budget: nat)
    requires
        !representable(v),
    ensures
        !(serialized(v, budget) is Output),
    decreases v, 0int,
{
    match v {
        ValueModel::List(es) => {
            if budget != 0 {
                lemma_elems_unrepresentable_fail(es, 0, (budget - 1) as nat);
            }
        },
        ValueModel::Record(fs) => {
            let sub = if budget == 0 {
                0nat
            } else {
                (budget - 1) as nat
            };
            lemma_fields_unrepresentable_fail(fs, 0, sub, Seq::empty());
        },
        _ => {},
    }
}

proof fn lemma_elems_unrepresentable_fail(es: Seq<ValueModel>, i: int, budget: nat)
    requires
        0 <= i,
        !elems_representable(es, i),
    ensures
        !(serialized_elems(es, i, budget) is Output),
    decreases es, es.len() - i,
{
    if i < es.len() {
        if !representable(es[i]) {
            lemma_unrepresentable_fails(es[i], budget);
        } else {
            if serialized(es[i], budget) is Output {
                lemma_elems_unrepresentable_fail(es, i + 1, budget);
            }
        }
    }
}

proof fn lemma_fields_unrepresentable_fail(
    fs: Seq<(Seq<u8>, ValueModel)>,
    i: int,
    budget: nat,
    acc: Seq<(Seq<u8>, Seq<TokenModel>)>,
)
    requires
        0 <= i,
        !fields_representable(fs, i),
    ensures
        !(collected_fields(fs, i, budget, acc) is Entries),
    decreases fs, fs.len() - i,
{
    if i < fs.len() {
        if !representable(fs[i].1) {
            lemma_unrepresentable_fails(fs[i].1, budget);
        } else {
            if serialized(fs[i].1, budget) is Output {
                lemma_fields_unrepresentable_fail(
                    fs,
                    i + 1,
                    budget,
                    sorted_insert(acc, fs[i].0, serialized(fs[i].1, budget)->Output_0),
                );
            }
        }
    }
}

/// For representable values the depth budget is exact: serialization
/// succeeds if and only if the value's nesting depth fits the budget, and
/// the only possible failure is depth exhaustion. In particular, nesting to
/// exactly the configured maximum succeeds and one level beyond it fails.
pub proof fn lemma_depth_budget_exact(v: ValueModel, budget: nat)
    requires
        representable(v),
    ensures
        serialized(v, budget) is Output <==> nesting_depth(v) <= budget,
        serialized(v, budget) is Output || serialized(v, budget) is TooDeep,
    decreases v, 0int,
{
    match v {
        ValueModel::List(es) => {
            if budget != 0 {
                lemma_elems_depth_exact(es, 0, (budget - 1) as nat);
            } else {
                lemma_elems_depth_exact(es, 0, 0);
            }
        },
        ValueModel::Record(fs) => {
            let sub = if budget == 0 {
                0nat
            } else {
                (budget - 1) as nat
            };
            lemma_fields_depth_exact(fs, 0, sub, Seq::empty());
        },
        _ => {},
    }
}

proof fn lemma_elems_depth_exact(es: Seq<ValueModel>, i: int, budget: nat)
    requires
        0 <= i,
        elems_representable(es, i),
    ensures
        serialized_elems(es, i, budget) is Output <==> elems_depth(es, i) <= budget,
        serialized_elems(es, i, budget) is Output || serialized_elems(es, i, budget) is TooDeep,
    decreases es, es.len() - i,
{
    if i < es.len() {
        lemma_depth_budget_exact(es[i], budget);
        lemma_elems_depth_exact(es, i + 1, budget);
    }
}

proof fn lemma_fields_depth_exact(
    fs: Seq<(Seq<u8>, ValueModel)>,
    i: int,
    budget: nat,
    acc: Seq<(Seq<u8>, Seq<TokenModel>)>,
)
    requires
        0 <= i,
        fields_representable(fs, i),
    ensures
        collected_fields(fs, i, budget, acc) is Entries <==> fields_depth(fs, i) <= budget,
        collected_fields(fs, i, budget, acc) is Entries || collected_fields(fs, i, budget, acc)
            is TooDeep,
    decreases fs, fs.len() - i,
{
    if i < fs.len() {
        lemma_depth_budget_exact(fs[i].1, budget);
        if serialized(fs[i].1, budget) is Output {
            lemma_fields_depth_exact(
                fs,
                i + 1,
                budget,
                sorted_insert(acc, fs[i].0, serialized(fs[i].1, budget)->Output_0),
            );
        }
    }
}

/// Serialization is a pure function of the logical value and the depth
/// budget: serializing the same logical value twice yields byte-identical
/// output.
pub proof fn lemma_serialization_deterministic(v1: ValueModel, v2: ValueModel, budget: nat)
    requires
        v1 == v2,
    ensures
        serialized(v1, budget) == serialized(v2, budget),
{
}

} // verus!
