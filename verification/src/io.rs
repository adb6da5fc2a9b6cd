//! Persistence of a network's numeric state.
//!
//! The persisted fields of a [`FeedForward`] are its weight matrices, its
//! learning rate and momentum, and its activation tag.  Scratch vectors and
//! a custom activation pair are never persisted: on decode the scratch comes
//! back zeroed, and a custom pair must be re-attached by the caller.
//!
//! The format is layered.  A network first becomes a flat sequence of 64-bit
//! words: the layer count; then per layer its neuron count, its weight-row
//! width and its weight rows; then the learning rate, the momentum and the
//! activation code.  The word sequence is carried either as little-endian
//! bytes (`encode` / `decode`) or as a JSON array of decimal numbers
//! (`to_json` / `from_json`).  Each direction is proved the inverse of the
//! other.

use vstd::prelude::*;
use vstd::arithmetic::div_mod::{lemma_div_decreases, lemma_fundamental_div_mod};
use vstd::arithmetic::mul::{
    lemma_mul_inequality, lemma_mul_is_distributive_add_other_way, lemma_mul_nonnegative,
};
use vstd::string::StrSliceExecFns;

use crate::activators::{code_of, spec_code_of, spec_type_of_code, type_of_code, Type};
use crate::{FeedForward, Layer};

verus! {

/// Why a persisted stream was rejected.
#[derive(Clone, Copy, Debug, PartialEq, Eq, Structural)]
pub enum DecodeError {
    /// The stream ended before the fields it announced, or runs past them.
    Truncated,
    /// A field holds a value the format does not allow.
    Malformed,
}

/// The persisted image of a network: its weight matrices (per layer, per
/// neuron, bias weight first), its hyper-parameters and its activation tag.
pub struct NetModel {
    pub weights: Seq<Seq<Seq<u64>>>,
    pub learn_rate: u64,
    pub momentum: u64,
    pub act: Type,
}

/// One layer's weight matrix as plain sequences.
pub open spec fn rows_view(l: Layer) -> Seq<Seq<u64>> {
    Seq::new(l.w@.len(), |i: int| l.w@[i]@)
}

/// The persisted image of a network.
pub open spec fn model_of(n: FeedForward) -> NetModel {
    NetModel {
        weights: Seq::new(n.layers@.len(), |j: int| rows_view(n.layers@[j])),
        learn_rate: n.learn_rate,
        momentum: n.momentum,
        act: n.act_type,
    }
}

/// A weight matrix the format can carry: at least one row, rows of one
/// shared width of at least two (bias plus at least one input), everything
/// addressable in memory.
pub open spec fn layer_rows_wf(rows: Seq<Seq<u64>>) -> bool {
    &&& 1 <= rows.len() <= usize::MAX
    &&& 2 <= rows[0].len() <= usize::MAX
    &&& forall|i: int| 0 <= i < rows.len() ==> (#[trigger] rows[i]).len() == rows[0].len()
}

/// Weight matrices the format can carry: at least one well-formed layer,
/// and consecutive layers wired to one another — each row of layer `j`
/// holds a bias weight plus one weight per neuron of layer `j - 1`.
pub open spec fn weights_wf(weights: Seq<Seq<Seq<u64>>>) -> bool {
    &&& 1 <= weights.len() <= usize::MAX
    &&& forall|j: int| 0 <= j < weights.len() ==> layer_rows_wf(#[trigger] weights[j])
    &&& forall|j: int|
        1 <= j < weights.len() ==> (#[trigger] weights[j])[0].len() == weights[j - 1].len() + 1
}

/// A model the format can carry.
pub open spec fn model_wf(m: NetModel) -> bool {
    weights_wf(m.weights)
}

/// A network as decode hands it out: scratch vectors zeroed and no recorded
/// error, as if freshly built.
pub open spec fn spec_fresh(n: FeedForward) -> bool {
    &&& n.error == 0
    &&& forall|j: int|
        0 <= j < n.layers@.len() ==> {
            let l = #[trigger] n.layers@[j];
            l.v@ == Seq::new(l.w@.len(), |i: int| 0u64) && l.y@ == l.v@ && l.delta@ == l.v@
                && l.prev_delta@ == l.v@
        }
}

// ---------------------------------------------------------------------------
// The word layer: a model as a flat sequence of 64-bit words.
// ---------------------------------------------------------------------------

/// Weight rows laid end to end.
pub open spec fn words_of_rows(rows: Seq<Seq<u64>>) -> Seq<u64>
    decreases rows.len(),
{
    if rows.len() == 0 {
        Seq::empty()
    } else {
        rows.first() + words_of_rows(rows.drop_first())
    }
}

/// One layer: neuron count, row width, then its rows.
pub open spec fn words_of_layer(rows: Seq<Seq<u64>>) -> Seq<u64> {
    seq![rows.len() as u64, rows[0].len() as u64] + words_of_rows(rows)
}

/// All layers, in order.
pub open spec fn words_of_layers(ls: Seq<Seq<Seq<u64>>>) -> Seq<u64>
    decreases ls.len(),
{
    if ls.len() == 0 {
        Seq::empty()
    } else {
        words_of_layer(ls.first()) + words_of_layers(ls.drop_first())
    }
}

/// The whole model: layer count, the layers, then learning rate, momentum
/// and activation code.
pub open spec fn words_of_model(m: NetModel) -> Seq<u64> {
    seq![m.weights.len() as u64] + words_of_layers(m.weights) + seq![
        m.learn_rate,
        m.momentum,
        spec_code_of(m.act),
    ]
}

/// Reads `count` rows of `m` words each, starting at `pos`; yields the rows
/// and the position after them, or nothing if the words run out.
pub open spec fn parse_rows(ws: Seq<u64>, pos: int, count: nat, m: int) -> Option<
    (Seq<Seq<u64>>, int),
>
    decreases count,
{
    if count == 0 {
        Some((Seq::empty(), pos))
    } else if pos + m <= ws.len() {
        match parse_rows(ws, pos + m, (count - 1) as nat, m) {
            None => None,
            Some((rest, end)) => Some((seq![ws.subrange(pos, pos + m)] + rest, end)),
        }
    } else {
        None
    }
}

/// Reads `count` layers starting at `pos`: each is a neuron count, a row
/// width, and that many rows of that width.
pub open spec fn parse_layers(ws: Seq<u64>, pos: int, count: nat) -> Option<
    (Seq<Seq<Seq<u64>>>, int),
>
    decreases count,
{
    if count == 0 {
        Some((Seq::empty(), pos))
    } else if pos + 2 <= ws.len() {
        match parse_rows(ws, pos + 2, ws[pos] as nat, ws[pos + 1] as int) {
            None => None,
            Some((rows, p)) => match parse_layers(ws, p, (count - 1) as nat) {
                None => None,
                Some((rest, end)) => Some((seq![rows] + rest, end)),
            },
        }
    } else {
        None
    }
}

/// The model a word sequence spells out, if any: the announced number of
/// layers, exactly three trailing words, a valid activation code, and a
/// well-formed model — otherwise nothing.
pub open spec fn spec_parse_model(ws: Seq<u64>) -> Option<NetModel> {
    if ws.len() < 1 {
        None
    } else {
        match parse_layers(ws, 1, ws[0] as nat) {
            None => None,
            Some((weights, p)) => if p + 3 == ws.len() {
                match spec_type_of_code(ws[p + 2]) {
                    None => None,
                    Some(t) => {
                        let m = NetModel {
                            weights,
                            learn_rate: ws[p],
                            momentum: ws[p + 1],
                            act: t,
                        };
                        if model_wf(m) {
                            Some(m)
                        } else {
                            None
                        }
                    },
                }
            } else {
                None
            },
        }
    }
}

// ---------------------------------------------------------------------------
// Properties of the word layer.
// ---------------------------------------------------------------------------

/// Appending a row extends the flat row words by exactly that row.
proof fn lemma_words_of_rows_push(rows: Seq<Seq<u64>>, x: Seq<u64>)
    ensures
        words_of_rows(rows.push(x)) == words_of_rows(rows) + x,
    decreases rows.len(),
{
    if rows.len() == 0 {
        assert(rows.push(x).drop_first() =~= Seq::<Seq<u64>>::empty());
        assert(rows.push(x).first() == x);
        assert(words_of_rows(rows.push(x)) == x + words_of_rows(Seq::<Seq<u64>>::empty()));
        assert(x + words_of_rows(Seq::<Seq<u64>>::empty()) =~= words_of_rows(rows) + x);
    } else {
        assert(rows.push(x).drop_first() =~= rows.drop_first().push(x));
        lemma_words_of_rows_push(rows.drop_first(), x);
        assert(words_of_rows(rows.push(x)) == rows.first() + (words_of_rows(rows.drop_first())
            + x));
        assert(rows.first() + (words_of_rows(rows.drop_first()) + x) =~= (rows.first()
            + words_of_rows(rows.drop_first())) + x);
    }
}

/// Appending a layer extends the flat layer words by exactly that layer.
proof fn lemma_words_of_layers_push(ls: Seq<Seq<Seq<u64>>>, x: Seq<Seq<u64>>)
    ensures
        words_of_layers(ls.push(x)) == words_of_layers(ls) + words_of_layer(x),
    decreases ls.len(),
{
    if ls.len() == 0 {
        assert(ls.push(x).drop_first() =~= Seq::<Seq<Seq<u64>>>::empty());
        assert(ls.push(x).first() == x);
        assert(words_of_layers(ls.push(x)) == words_of_layer(x) + words_of_layers(
            Seq::<Seq<Seq<u64>>>::empty(),
        ));
        assert(words_of_layer(x) + words_of_layers(Seq::<Seq<Seq<u64>>>::empty())
            =~= words_of_layers(ls) + words_of_layer(x));
    } else {
        assert(ls.push(x).drop_first() =~= ls.drop_first().push(x));
        lemma_words_of_layers_push(ls.drop_first(), x);
        assert(words_of_layers(ls.push(x)) == words_of_layer(ls.first()) + (words_of_layers(
            ls.drop_first(),
        ) + words_of_layer(x)));
        assert(words_of_layer(ls.first()) + (words_of_layers(ls.drop_first()) + words_of_layer(x))
            =~= (words_of_layer(ls.first()) + words_of_layers(ls.drop_first())) + words_of_layer(
            x,
        ));
    }
}

/// Rows of one shared width `m` flatten to `count * m` words.
proof fn lemma_words_of_rows_len(rows: Seq<Seq<u64>>, m: int)
    requires
        forall|i: int| 0 <= i < rows.len() ==> (#[trigger] rows[i]).len() == m,
    ensures
        words_of_rows(rows).len() == rows.len() * m,
    decreases rows.len(),
{
    if rows.len() == 0 {
    } else {
        lemma_words_of_rows_len(rows.drop_first(), m);
        assert(rows.drop_first().len() == rows.len() - 1);
        assert(words_of_rows(rows).len() == m + (rows.len() - 1) * m);
        assert(rows.len() * m == 1 * m + (rows.len() - 1) * m) by {
            lemma_mul_is_distributive_add_other_way(m, 1, rows.len() - 1);
        }
    }
}

/// What a successful `parse_rows` yields: exactly `count` rows, each the
/// `m`-word slice at its place, ending `count * m` words further on; and it
/// succeeds exactly when those words are there.
proof fn lemma_parse_rows_props(ws: Seq<u64>, pos: int, count: nat, m: int)
    requires
        0 <= pos <= ws.len(),
        0 <= m,
    ensures
        parse_rows(ws, pos, count, m) is Some <==> pos + count * m <= ws.len(),
        parse_rows(ws, pos, count, m) matches Some((rows, end)) ==> {
            &&& rows.len() == count
            &&& end == pos + count * m
            &&& forall|i: int|
                0 <= i < count ==> #[trigger] rows[i] == ws.subrange(
                    pos + i * m,
                    pos + i * m + m,
                )
        },
    decreases count,
{
    lemma_mul_nonnegative(count as int, m);
    if count == 0 {
    } else {
        assert(count * m == 1 * m + (count - 1) * m) by {
            lemma_mul_is_distributive_add_other_way(m, 1, count - 1);
        }
        lemma_mul_nonnegative(count - 1, m);
        if pos + m <= ws.len() {
            lemma_parse_rows_props(ws, pos + m, (count - 1) as nat, m);
            if parse_rows(ws, pos + m, (count - 1) as nat, m) is Some {
                let (rest, end) = parse_rows(ws, pos + m, (count - 1) as nat, m)->Some_0;
                let rows = seq![ws.subrange(pos, pos + m)] + rest;
                assert forall|i: int| 0 <= i < count implies #[trigger] rows[i] == ws.subrange(
                    pos + i * m,
                    pos + i * m + m,
                ) by {
                    if i == 0 {
                        assert(0 * m == 0) by {
                            lemma_mul_is_distributive_add_other_way(m, 0, 0);
                        }
                    } else {
                        assert(rows[i] == rest[i - 1]);
                        assert(rest[i - 1] == ws.subrange(
                            pos + m + (i - 1) * m,
                            pos + m + (i - 1) * m + m,
                        ));
                        assert(i * m == 1 * m + (i - 1) * m) by {
                            lemma_mul_is_distributive_add_other_way(m, 1, i - 1);
                        }
                    }
                }
            }
        } else {
            assert(pos + count * m > ws.len()) by {
                assert(count * m >= 1 * m) by {
                    lemma_mul_inequality(1, count as int, m);
                }
            }
        }
    }
}

/// What a successful `parse_layers` yields: exactly `count` layers, ending
/// no earlier than it began and within the words.
proof fn lemma_parse_layers_props(ws: Seq<u64>, pos: int, count: nat)
    requires
        0 <= pos <= ws.len(),
    ensures
        parse_layers(ws, pos, count) matches Some((ls, end)) ==> {
            &&& ls.len() == count
            &&& pos <= end <= ws.len()
        },
    decreases count,
{
    if count == 0 {
    } else if pos + 2 <= ws.len() {
        lemma_parse_rows_props(ws, pos + 2, ws[pos] as nat, ws[pos + 1] as int);
        if parse_rows(ws, pos + 2, ws[pos] as nat, ws[pos + 1] as int) is Some {
            let (rows, p) = parse_rows(ws, pos + 2, ws[pos] as nat, ws[pos + 1] as int)->Some_0;
            lemma_mul_nonnegative(ws[pos] as int, ws[pos + 1] as int);
            lemma_parse_layers_props(ws, p, (count - 1) as nat);
        }
    }
}

/// Parsing rows out of their own flattening gives them back.
proof fn lemma_parse_rows_of_words(ws: Seq<u64>, pos: int, rows: Seq<Seq<u64>>, m: int)
    requires
        0 <= m,
        0 <= pos,
        pos + words_of_rows(rows).len() <= ws.len(),
        forall|i: int| 0 <= i < rows.len() ==> (#[trigger] rows[i]).len() == m,
        ws.subrange(pos, pos + words_of_rows(rows).len() as int) == words_of_rows(rows),
    ensures
        parse_rows(ws, pos, rows.len(), m) == Some::<(Seq<Seq<u64>>, int)>(
            (rows, pos + words_of_rows(rows).len()),
        ),
    decreases rows.len(),
{
    lemma_words_of_rows_len(rows, m);
    if rows.len() == 0 {
        assert(parse_rows(ws, pos, 0, m) == Some::<(Seq<Seq<u64>>, int)>((Seq::empty(), pos)));
        assert(rows =~= Seq::<Seq<u64>>::empty());
    } else {
        let rest = rows.drop_first();
        let total = words_of_rows(rows).len() as int;
        lemma_words_of_rows_len(rest, m);
        assert(words_of_rows(rows) == rows.first() + words_of_rows(rest));
        assert(ws.subrange(pos, pos + m) =~= rows.first()) by {
            assert forall|k: int| 0 <= k < m implies ws.subrange(pos, pos + m)[k]
                == rows.first()[k] by {
                assert(ws.subrange(pos, pos + total)[k] == words_of_rows(rows)[k]);
            }
        }
        assert(ws.subrange(pos + m, pos + total) =~= words_of_rows(rest)) by {
            assert forall|k: int| 0 <= k < total - m implies ws.subrange(pos + m, pos + total)[k]
                == words_of_rows(rest)[k] by {
                assert(ws.subrange(pos, pos + total)[m + k] == words_of_rows(rows)[m + k]);
            }
        }
        lemma_parse_rows_of_words(ws, pos + m, rest, m);
        assert(seq![ws.subrange(pos, pos + m)] + rest =~= rows);
    }
}

/// Parsing layers out of their own flattening gives them back.
proof fn lemma_parse_layers_of_words(ws: Seq<u64>, pos: int, ls: Seq<Seq<Seq<u64>>>)
    requires
        0 <= pos,
        pos + words_of_layers(ls).len() <= ws.len(),
        forall|j: int| 0 <= j < ls.len() ==> layer_rows_wf(#[trigger] ls[j]),
        ws.subrange(pos, pos + words_of_layers(ls).len() as int) == words_of_layers(ls),
    ensures
        parse_layers(ws, pos, ls.len()) == Some::<(Seq<Seq<Seq<u64>>>, int)>(
            (ls, pos + words_of_layers(ls).len()),
        ),
    decreases ls.len(),
{
    if ls.len() == 0 {
        assert(ls =~= Seq::<Seq<Seq<u64>>>::empty());
    } else {
        let head = ls.first();
        let rest = ls.drop_first();
        let hw = words_of_layer(head);
        let total = words_of_layers(ls).len() as int;
        assert(words_of_layers(ls) == hw + words_of_layers(rest));
        assert(layer_rows_wf(head));
        assert(ws.subrange(pos, pos + total)[0] == ws[pos]);
        assert(ws.subrange(pos, pos + total)[1] == ws[pos + 1]);
        assert(ws[pos] == head.len() as u64);
        assert(ws[pos + 1] == head[0].len() as u64);
        let m = head[0].len() as int;
        lemma_words_of_rows_len(head, m);
        assert(ws.subrange(pos + 2, pos + 2 + words_of_rows(head).len()) =~= words_of_rows(head))
            by {
            assert forall|k: int| 0 <= k < words_of_rows(head).len() implies ws.subrange(
                pos + 2,
                pos + 2 + words_of_rows(head).len(),
            )[k] == words_of_rows(head)[k] by {
                assert(ws.subrange(pos, pos + total)[2 + k] == ws[pos + (2 + k)]);
                assert(words_of_layers(ls)[2 + k] == words_of_rows(head)[k]);
            }
        }
        lemma_parse_rows_of_words(ws, pos + 2, head, m);
        assert(ws[pos] as nat == head.len());
        let p = pos + 2 + words_of_rows(head).len();
        assert(ws.subrange(p, p + words_of_layers(rest).len()) =~= words_of_layers(rest)) by {
            assert forall|k: int| 0 <= k < words_of_layers(rest).len() implies ws.subrange(
                p,
                p + words_of_layers(rest).len(),
            )[k] == words_of_layers(rest)[k] by {
                assert(ws.subrange(pos, pos + total)[hw.len() + k] == ws[pos + (hw.len() as int
                    + k)]);
                assert(words_of_layers(ls)[hw.len() + k] == words_of_layers(rest)[k]);
            }
        }
        lemma_parse_layers_of_words(ws, p, rest);
        assert(seq![head] + rest =~= ls);
    }
}

/// Appends a row's words.
fn push_row(out: &mut Vec<u64>, row: &Vec<u64>)
    ensures
        final(out)@ == old(out)@ + row@,
{
    let mut t: usize = 0;
    while t < row.len()
        invariant
            t <= row@.len(),
            out@ == old(out)@ + row@.take(t as int),
        decreases row@.len() - t,
    {
        out.push(row[t]);
        t = t + 1;
        proof {
            assert(old(out)@ + row@.take(t as int) =~= (old(out)@ + row@.take(t - 1)).push(
                row@[t - 1],
            ));
        }
    }
    proof {
        assert(row@.take(row@.len() as int) =~= row@);
    }
}

/// Flattens a network into the words of its persisted image.
fn encode_words(nn: &FeedForward) -> (r: Vec<u64>)
    requires
        nn.wf(),
    ensures
        r@ == words_of_model(model_of(*nn)),
        model_wf(model_of(*nn)),
{
    let ghost model = model_of(*nn);
    proof {
        lemma_model_of_wf(*nn);
    }
    let mut out: Vec<u64> = Vec::new();
    out.push(nn.layers.len() as u64);
    let mut j: usize = 0;
    while j < nn.layers.len()
        invariant
            nn.wf(),
            model == model_of(*nn),
            model_wf(model),
            j <= nn.layers@.len(),
            out@ == seq![model.weights.len() as u64] + words_of_layers(
                model.weights.take(j as int),
            ),
        decreases nn.layers@.len() - j,
    {
        let ghost base = out@;
        let l = &nn.layers[j];
        proof {
            assert(l.wf(nn.spec_inputs_of(j as int)));
            assert(model.weights[j as int] == rows_view(*l));
        }
        out.push(l.w.len() as u64);
        out.push(l.w[0].len() as u64);
        let mut i: usize = 0;
        while i < l.w.len()
            invariant
                l.wf(nn.spec_inputs_of(j as int)),
                j < nn.layers@.len(),
                l == nn.layers@[j as int],
                model == model_of(*nn),
                i <= l.w@.len(),
                out@ == base + seq![l.w@.len() as u64, (l.w@[0])@.len() as u64] + words_of_rows(
                    rows_view(*l).take(i as int),
                ),
            decreases l.w@.len() - i,
        {
            push_row(&mut out, &l.w[i]);
            i = i + 1;
            proof {
                assert(rows_view(*l).take(i as int) =~= rows_view(*l).take(i - 1).push(
                    rows_view(*l)[i - 1],
                ));
                lemma_words_of_rows_push(rows_view(*l).take(i - 1), rows_view(*l)[i - 1]);
                assert(rows_view(*l)[i - 1] == (l.w@[i - 1])@);
                assert(base + seq![l.w@.len() as u64, (l.w@[0])@.len() as u64] + (words_of_rows(
                    rows_view(*l).take(i - 1),
                ) + (l.w@[i - 1])@) =~= (base + seq![
                    l.w@.len() as u64,
                    (l.w@[0])@.len() as u64,
                ] + words_of_rows(rows_view(*l).take(i - 1))) + (l.w@[i - 1])@);
            }
        }
        j = j + 1;
        proof {
            assert(rows_view(*l).take(rows_view(*l).len() as int) =~= rows_view(*l));
            assert(model.weights.take(j as int) =~= model.weights.take(j - 1).push(
                model.weights[j - 1],
            ));
            lemma_words_of_layers_push(model.weights.take(j - 1), model.weights[j - 1]);
            assert(words_of_layer(model.weights[j - 1]) == seq![
                l.w@.len() as u64,
                (l.w@[0])@.len() as u64,
            ] + words_of_rows(rows_view(*l)));
            assert(out@ =~= seq![model.weights.len() as u64] + words_of_layers(
                model.weights.take(j as int),
            ));
        }
    }
    proof {
        assert(model.weights.take(nn.layers@.len() as int) =~= model.weights);
    }
    out.push(nn.learn_rate);
    out.push(nn.momentum);
    out.push(code_of(nn.act_type));
    proof {
        assert(out@ =~= words_of_model(model));
    }
    out
}

/// A well-formed network's persisted image is a model the format carries.
proof fn lemma_model_of_wf(nn: FeedForward)
    requires
        nn.wf(),
    ensures
        model_wf(model_of(nn)),
{
    let model = model_of(nn);
    assert(nn.layers.len() == nn.layers@.len());
    assert forall|j: int| 0 <= j < model.weights.len() implies layer_rows_wf(
        #[trigger] model.weights[j],
    ) by {
        let l = nn.layers@[j];
        assert(l.wf(nn.spec_inputs_of(j)));
        assert(l.w.len() == l.w@.len());
        assert((l.w@[0]).len() == (l.w@[0])@.len());
        assert(model.weights[j] == rows_view(l));
        if j == 0 {
            assert(nn.spec_inputs_of(0) >= 1);
        } else {
            assert(nn.layers@[j - 1].wf(nn.spec_inputs_of(j - 1)));
        }
    }
    assert forall|j: int| 1 <= j < model.weights.len() implies (#[trigger] model.weights[j])[0].len()
        == model.weights[j - 1].len() + 1 by {
        let l = nn.layers@[j];
        assert(l.wf(nn.spec_inputs_of(j)));
        assert(nn.layers@[j - 1].wf(nn.spec_inputs_of(j - 1)));
    }
}

/// The law of the word layer: a well-formed model read back out of its own
/// words is itself — parsing inverts flattening.
pub proof fn lemma_parse_of_words(m: NetModel)
    requires
        model_wf(m),
    ensures
        spec_parse_model(words_of_model(m)) == Some(m),
{
    let ws = words_of_model(m);
    let body = words_of_layers(m.weights);
    assert(ws.len() == 1 + body.len() + 3);
    assert(ws[0] == m.weights.len() as u64);
    assert(ws.subrange(1, 1 + body.len() as int) =~= body);
    lemma_parse_layers_of_words(ws, 1, m.weights);
    let p = 1 + body.len() as int;
    assert(ws[p] == m.learn_rate);
    assert(ws[p + 1] == m.momentum);
    assert(ws[p + 2] == spec_code_of(m.act));
    crate::activators::lemma_code_round_trip(m.act);
}

// ---------------------------------------------------------------------------
// Rebuilding a network from its words.
// ---------------------------------------------------------------------------

/// The weight matrices of a sequence of layers.
pub open spec fn layers_views(ls: Seq<Layer>) -> Seq<Seq<Seq<u64>>> {
    Seq::new(ls.len(), |j: int| rows_view(ls[j]))
}

/// Prefixes an already-parsed run of layers onto the outcome of parsing the
/// remainder.
spec fn glue(done: Seq<Seq<Seq<u64>>>, rest: Option<(Seq<Seq<Seq<u64>>>, int)>) -> Option<
    (Seq<Seq<Seq<u64>>>, int),
> {
    match rest {
        None => None,
        Some((ls, end)) => Some((done + ls, end)),
    }
}

/// Layers as decode builds them: freshly zeroed scratch, internally
/// consistent, rows at least two wide, and wired to one another.
spec fn built_ok(ls: Seq<Layer>) -> bool {
    &&& forall|j: int|
        0 <= j < ls.len() ==> {
            let l = #[trigger] ls[j];
            &&& l.wf(l.spec_inputs())
            &&& (l.w@[0])@.len() >= 2
            &&& l.v@ == Seq::new(l.w@.len(), |i: int| 0u64)
            &&& l.y@ == l.v@
            &&& l.delta@ == l.v@
            &&& l.prev_delta@ == l.v@
        }
    &&& forall|j: int|
        1 <= j < ls.len() ==> ((#[trigger] ls[j]).w@[0])@.len() == ls[j - 1].w@.len() + 1
}

/// If the next layer's header is unusable — no neurons, rows too narrow, or
/// a width that does not continue the previous layer — no model can come of
/// the words, whatever follows.
proof fn lemma_bad_layer_head(ws: Seq<u64>, pos: int, rem: nat, done: Seq<Seq<Seq<u64>>>)
    requires
        ws.len() >= 1,
        rem >= 1,
        0 <= pos,
        pos + 2 <= ws.len(),
        parse_layers(ws, 1, ws[0] as nat) == glue(done, parse_layers(ws, pos, rem)),
        ws[pos] as nat == 0 || (ws[pos + 1] as int) < 2 || (done.len() >= 1 && ws[pos + 1] as int
            != done[done.len() - 1].len() + 1),
    ensures
        spec_parse_model(ws) is None,
{
    let k = done.len() as int;
    let n = ws[pos] as nat;
    let m = ws[pos + 1] as int;
    if parse_layers(ws, pos, rem) is Some {
        let (rest, end) = parse_layers(ws, pos, rem)->Some_0;
        lemma_parse_rows_props(ws, pos + 2, n, m);
        let (rows, p2) = parse_rows(ws, pos + 2, n, m)->Some_0;
        lemma_parse_layers_props(ws, pos, rem);
        let whole = done + rest;
        assert(rest[0] == rows);
        assert(whole[k] == rows);
        assert(whole.len() == k + rem);
        if n == 0 {
            assert(!layer_rows_wf(whole[k]));
        } else if m < 2 {
            assert(rows[0] == ws.subrange(pos + 2 + 0 * m, pos + 2 + 0 * m + m));
            assert(rows[0].len() == m);
            assert(!layer_rows_wf(whole[k]));
        } else {
            assert(rows[0] == ws.subrange(pos + 2 + 0 * m, pos + 2 + 0 * m + m));
            assert(rows[0].len() == m);
            assert(whole[k - 1] == done[k - 1]);
        }
        assert(!weights_wf(whole));
    }
}

/// Copies the `m` words at `start`.
fn read_row(ws: &Vec<u64>, start: usize, m: usize) -> (r: Vec<u64>)
    requires
        start + m <= ws@.len(),
    ensures
        r@ == ws@.subrange(start as int, start as int + m as int),
{
    proof {
        assert(ws.len() == ws@.len());
    }
    let mut r: Vec<u64> = Vec::new();
    let mut t: usize = 0;
    while t < m
        invariant
            t <= m,
            start + m <= ws@.len(),
            ws@.len() <= usize::MAX,
            r@ == ws@.subrange(start as int, start as int + t as int),
        decreases m - t,
    {
        r.push(ws[start + t]);
        t = t + 1;
        proof {
            assert(r@ =~= ws@.subrange(start as int, start as int + t as int));
        }
    }
    r
}

/// Reads `n_w` rows of `m_w` words each, or reports that the words run out.
fn read_rows(ws: &Vec<u64>, row_start: usize, n_w: u64, m_w: u64) -> (r: Result<
    Vec<Vec<u64>>,
    DecodeError,
>)
    requires
        1 <= row_start <= ws@.len(),
        m_w >= 1,
    ensures
        match r {
            Ok(rows) => {
                &&& rows@.len() == n_w
                &&& row_start + (n_w as int) * (m_w as int) <= ws@.len()
                &&& parse_rows(ws@, row_start as int, n_w as nat, m_w as int) == Some::<
                    (Seq<Seq<u64>>, int),
                >((
                    Seq::new(rows@.len(), |t: int| (rows@[t])@),
                    row_start + (n_w as int) * (m_w as int),
                ))
                &&& forall|t: int| 0 <= t < rows@.len() ==> (#[trigger] rows@[t])@.len() == m_w
            },
            Err(e) => parse_rows(ws@, row_start as int, n_w as nat, m_w as int) is None,
        },
{
    proof {
        assert(ws.len() == ws@.len());
    }
    let mut rows: Vec<Vec<u64>> = Vec::new();
    let mut cursor: usize = row_start;
    let mut i: u64 = 0;
    while i < n_w
        invariant
            i <= n_w,
            m_w >= 1,
            row_start <= cursor <= ws@.len(),
            ws@.len() <= usize::MAX,
            rows@.len() == i,
            cursor == row_start + (i as int) * (m_w as int),
            forall|t: int|
                0 <= t < i ==> (#[trigger] rows@[t])@ == ws@.subrange(
                    row_start + t * (m_w as int),
                    row_start + t * (m_w as int) + (m_w as int),
                ),
        decreases n_w - i,
    {
        if ((ws.len() - cursor) as u64) < m_w {
            proof {
                lemma_parse_rows_props(ws@, row_start as int, n_w as nat, m_w as int);
                assert((i as int + 1) * (m_w as int) <= (n_w as int) * (m_w as int)) by {
                    lemma_mul_inequality(i as int + 1, n_w as int, m_w as int);
                }
                assert((i as int + 1) * (m_w as int) == (i as int) * (m_w as int) + 1 * (
                m_w as int)) by {
                    lemma_mul_is_distributive_add_other_way(m_w as int, i as int, 1);
                }
                assert(row_start + (n_w as int) * (m_w as int) > ws@.len());
            }
            return Err(DecodeError::Truncated);
        }
        let m_us: usize = m_w as usize;
        let row = read_row(ws, cursor, m_us);
        rows.push(row);
        cursor = cursor + m_us;
        i = i + 1;
        proof {
            assert((i as int) * (m_w as int) == (i as int - 1) * (m_w as int) + 1 * (m_w as int))
                by {
                lemma_mul_is_distributive_add_other_way(m_w as int, i as int - 1, 1);
            }
        }
    }
    proof {
        lemma_mul_nonnegative(n_w as int, m_w as int);
        lemma_parse_rows_props(ws@, row_start as int, n_w as nat, m_w as int);
        let parsed = parse_rows(ws@, row_start as int, n_w as nat, m_w as int)->Some_0;
        assert(parsed.0 =~= Seq::new(rows@.len(), |t: int| (rows@[t])@));
        assert(parse_rows(ws@, row_start as int, n_w as nat, m_w as int) == Some::<
            (Seq<Seq<u64>>, int),
        >((parsed.0, parsed.1)));
        assert(parsed.1 == row_start + (n_w as int) * (m_w as int));
        assert forall|t: int| 0 <= t < rows@.len() implies (#[trigger] rows@[t])@.len()
            == m_w by {
            lemma_mul_nonnegative(t, m_w as int);
            assert((t + 1) * (m_w as int) <= (n_w as int) * (m_w as int)) by {
                lemma_mul_inequality(t + 1, n_w as int, m_w as int);
            }
            assert((t + 1) * (m_w as int) == t * (m_w as int) + 1 * (m_w as int)) by {
                lemma_mul_is_distributive_add_other_way(m_w as int, t, 1);
            }
            assert(rows@[t]@ == ws@.subrange(
                row_start + t * (m_w as int),
                row_start + t * (m_w as int) + (m_w as int),
            ));
        }
    }
    Ok(rows)
}

/// Reads the announced run of layers, building each as a freshly zeroed
/// [`Layer`]; rejects headers that spell no carriable model.
fn decode_layers(ws: &Vec<u64>, count: u64) -> (r: Result<(Vec<Layer>, usize), DecodeError>)
    requires
        ws@.len() >= 1,
        count == ws@[0],
        count >= 1,
    ensures
        match r {
            Ok((layers, pos)) => {
                &&& 1 <= pos <= ws@.len()
                &&& layers@.len() == count
                &&& built_ok(layers@)
                &&& parse_layers(ws@, 1, count as nat) == Some::<(Seq<Seq<Seq<u64>>>, int)>(
                    (layers_views(layers@), pos as int),
                )
            },
            Err(e) => spec_parse_model(ws@) is None,
        },
{
    proof {
        assert(ws.len() == ws@.len());
    }
    let mut layers: Vec<Layer> = Vec::new();
    let mut pos: usize = 1;
    let mut k: u64 = 0;
    let mut prev_n: usize = 0;
    while k < count
        invariant
            ws@.len() >= 1,
            ws@.len() <= usize::MAX,
            count == ws@[0],
            k <= count,
            1 <= pos <= ws@.len(),
            layers@.len() == k,
            built_ok(layers@),
            k >= 1 ==> prev_n == layers@[k - 1].w@.len(),
            parse_layers(ws@, 1, count as nat) == glue(
                layers_views(layers@),
                parse_layers(ws@, pos as int, (count - k) as nat),
            ),
        decreases count - k,
    {
        let ghost done = layers_views(layers@);
        let ghost rem = (count - k) as nat;
        if ws.len() - pos < 2 {
            proof {
                assert(parse_layers(ws@, pos as int, rem) is None);
            }
            return Err(DecodeError::Truncated);
        }
        let n_w = ws[pos];
        let m_w = ws[pos + 1];
        if n_w == 0 || m_w < 2 || (k >= 1 && m_w - 1 != prev_n as u64) {
            proof {
                lemma_bad_layer_head(ws@, pos as int, rem, done);
            }
            return Err(DecodeError::Malformed);
        }
        let rows = match read_rows(ws, pos + 2, n_w, m_w) {
            Err(e) => {
                proof {
                    assert(parse_layers(ws@, pos as int, rem) is None);
                }
                return Err(e);
            },
            Ok(rows) => rows,
        };
        let ghost rows_seq = Seq::new(rows@.len(), |t: int| (rows@[t])@);
        let n_us = rows.len();
        proof {
            assert(rows@[0].len() == (rows@[0])@.len());
        }
        let m_us = m_w as usize;
        let layer = Layer::new(n_us, m_us - 1, rows);
        layers.push(layer);
        prev_n = n_us;
        k = k + 1;
        pos = pos + 2 + n_us * m_us;
        proof {
            assert(rows_view(layer) =~= rows_seq);
            assert(layers_views(layers@) =~= done + seq![rows_view(layer)]);
            assert(built_ok(layers@)) by {
                assert(forall|j: int|
                    0 <= j < layers@.len() - 1 ==> #[trigger] layers@[j] == layers@.drop_last()[j]);
                assert(layers@[layers@.len() - 1] == layer);
            }
            let ghost after = parse_layers(ws@, pos as int, (count - k) as nat);
            assert(parse_layers(ws@, (pos - (2 + n_us * m_us)) as int, rem) == (match after {
                None => None::<(Seq<Seq<Seq<u64>>>, int)>,
                Some((rest2, end)) => Some((seq![rows_seq] + rest2, end)),
            }));
            match after {
                None => {}
                Some((rest2, end)) => {
                    assert(done + (seq![rows_seq] + rest2) =~= (done + seq![rows_seq]) + rest2);
                    assert(done + seq![rows_seq] =~= layers_views(layers@));
                }
            }
        }
    }
    proof {
        assert(parse_layers(ws@, pos as int, 0) == Some::<(Seq<Seq<Seq<u64>>>, int)>(
            (Seq::empty(), pos as int),
        ));
        assert(layers_views(layers@) + Seq::<Seq<Seq<u64>>>::empty() =~= layers_views(layers@));
    }
    Ok((layers, pos))
}

/// Rebuilds a network from the words of a persisted image: exactly the
/// announced layers and three trailing words, a valid activation code, and
/// shapes that fit together — otherwise the words are rejected.  The
/// network comes back with zeroed scratch and no recorded error.
fn decode_words(ws: &Vec<u64>) -> (r: Result<FeedForward, DecodeError>)
    ensures
        match spec_parse_model(ws@) {
            Some(m) => r matches Ok(net) && model_of(net) == m && net.wf() && spec_fresh(net),
            None => r is Err,
        },
{
    proof {
        assert(ws.len() == ws@.len());
    }
    if ws.len() < 1 {
        return Err(DecodeError::Truncated);
    }
    let count = ws[0];
    if count == 0 {
        proof {
            assert(parse_layers(ws@, 1, 0) == Some::<(Seq<Seq<Seq<u64>>>, int)>(
                (Seq::empty(), 1),
            ));
        }
        return Err(DecodeError::Malformed);
    }
    let (layers, pos) = match decode_layers(ws, count) {
        Err(e) => {
            return Err(e);
        },
        Ok(x) => x,
    };
    if ws.len() - pos != 3 {
        return Err(DecodeError::Truncated);
    }
    let lr = ws[pos];
    let mom = ws[pos + 1];
    let act = match type_of_code(ws[pos + 2]) {
        None => {
            return Err(DecodeError::Malformed);
        },
        Some(t) => t,
    };
    let net = FeedForward { layers, learn_rate: lr, momentum: mom, error: 0, act_type: act };
    proof {
        let model = model_of(net);
        assert(model.weights =~= layers_views(net.layers@));
        assert(net.layers.len() == net.layers@.len());
        assert forall|j: int| 0 <= j < model.weights.len() implies layer_rows_wf(
            #[trigger] model.weights[j],
        ) by {
            let l = net.layers@[j];
            assert(model.weights[j] == rows_view(l));
            assert(l.wf(l.spec_inputs()));
            assert(l.w.len() == l.w@.len());
            assert(l.w@[0].len() == (l.w@[0])@.len());
        }
        assert forall|j: int| 1 <= j < model.weights.len() implies (
        #[trigger] model.weights[j])[0].len() == model.weights[j - 1].len() + 1 by {
            assert(model.weights[j] == rows_view(net.layers@[j]));
            assert(model.weights[j - 1] == rows_view(net.layers@[j - 1]));
            assert(net.layers@[j].wf(net.layers@[j].spec_inputs()));
        }
        assert(weights_wf(model.weights));
        assert(spec_parse_model(ws@) == Some(model));
        assert(net.wf()) by {
            assert forall|j: int| 0 <= j < net.layers@.len() implies (
            #[trigger] net.layers@[j]).wf(net.spec_inputs_of(j)) by {
                let l = net.layers@[j];
                assert(l.wf(l.spec_inputs()));
                if j > 0 {
                    assert((l.w@[0])@.len() == net.layers@[j - 1].w@.len() + 1);
                    assert(net.layers@[j - 1].wf(net.layers@[j - 1].spec_inputs()));
                }
            }
        }
        assert(spec_fresh(net));
    }
    Ok(net)
}

// ---------------------------------------------------------------------------
// The byte layer: words as little-endian bytes.
// ---------------------------------------------------------------------------

/// The eight bytes of a word, least significant first.
pub open spec fn le_bytes_of_word(w: u64) -> Seq<u8> {
    seq![
        (w & 0xff) as u8,
        ((w >> 8) & 0xff) as u8,
        ((w >> 16) & 0xff) as u8,
        ((w >> 24) & 0xff) as u8,
        ((w >> 32) & 0xff) as u8,
        ((w >> 40) & 0xff) as u8,
        ((w >> 48) & 0xff) as u8,
        ((w >> 56) & 0xff) as u8,
    ]
}

/// The word eight bytes spell, least significant first.
pub open spec fn word_of_le_bytes(b: Seq<u8>) -> u64 {
    (b[0] as u64) | (b[1] as u64) << 8 | (b[2] as u64) << 16 | (b[3] as u64) << 24 | (
    b[4] as u64) << 32 | (b[5] as u64) << 40 | (b[6] as u64) << 48 | (b[7] as u64) << 56
}

/// Words laid end to end as bytes.
pub open spec fn bytes_of_words(ws: Seq<u64>) -> Seq<u8>
    decreases ws.len(),
{
    if ws.len() == 0 {
        Seq::empty()
    } else {
        le_bytes_of_word(ws.first()) + bytes_of_words(ws.drop_first())
    }
}

/// The words a byte stream spells: eight bytes each, nothing left over.
pub open spec fn spec_words_of_bytes(bs: Seq<u8>) -> Option<Seq<u64>> {
    if bs.len() % 8 != 0 {
        None
    } else {
        Some(
            Seq::new(
                bs.len() / 8,
                |i: int| word_of_le_bytes(bs.subrange(8 * i, 8 * i + 8)),
            ),
        )
    }
}

/// The model a byte stream spells, if any.
pub open spec fn spec_decode(bs: Seq<u8>) -> Option<NetModel> {
    match spec_words_of_bytes(bs) {
        None => None,
        Some(ws) => spec_parse_model(ws),
    }
}

/// A word read back out of its own eight bytes is itself.
proof fn lemma_word_byte_round_trip(w: u64)
    ensures
        word_of_le_bytes(le_bytes_of_word(w)) == w,
{
    assert((((w & 0xff) as u8) as u64) | ((((w >> 8) & 0xff) as u8) as u64) << 8 | ((((w >> 16)
        & 0xff) as u8) as u64) << 16 | ((((w >> 24) & 0xff) as u8) as u64) << 24 | ((((w >> 32)
        & 0xff) as u8) as u64) << 32 | ((((w >> 40) & 0xff) as u8) as u64) << 40 | ((((w >> 48)
        & 0xff) as u8) as u64) << 48 | ((((w >> 56) & 0xff) as u8) as u64) << 56 == w)
        by (bit_vector);
}

/// Appending a word extends the byte stream by its eight bytes.
proof fn lemma_bytes_of_words_push(ws: Seq<u64>, x: u64)
    ensures
        bytes_of_words(ws.push(x)) == bytes_of_words(ws) + le_bytes_of_word(x),
    decreases ws.len(),
{
    if ws.len() == 0 {
        assert(ws.push(x).drop_first() =~= Seq::<u64>::empty());
        assert(ws.push(x).first() == x);
        assert(bytes_of_words(ws.push(x)) == le_bytes_of_word(x) + bytes_of_words(
            Seq::<u64>::empty(),
        ));
        assert(le_bytes_of_word(x) + bytes_of_words(Seq::<u64>::empty()) =~= bytes_of_words(ws)
            + le_bytes_of_word(x));
    } else {
        assert(ws.push(x).drop_first() =~= ws.drop_first().push(x));
        assert(ws.push(x).first() == ws.first());
        lemma_bytes_of_words_push(ws.drop_first(), x);
        assert(bytes_of_words(ws.push(x)) == le_bytes_of_word(ws.first()) + (bytes_of_words(
            ws.drop_first(),
        ) + le_bytes_of_word(x)));
        assert(le_bytes_of_word(ws.first()) + (bytes_of_words(ws.drop_first())
            + le_bytes_of_word(x)) =~= (le_bytes_of_word(ws.first()) + bytes_of_words(
            ws.drop_first(),
        )) + le_bytes_of_word(x));
    }
}

/// The byte stream of `count` words holds `8 * count` bytes.
proof fn lemma_bytes_of_words_len(ws: Seq<u64>)
    ensures
        bytes_of_words(ws).len() == 8 * ws.len(),
    decreases ws.len(),
{
    if ws.len() > 0 {
        lemma_bytes_of_words_len(ws.drop_first());
    }
}

/// Byte `8 * i + r` of a byte stream is byte `r` of word `i`.
proof fn lemma_bytes_of_words_index(ws: Seq<u64>, i: int, r: int)
    requires
        0 <= i < ws.len(),
        0 <= r < 8,
    ensures
        bytes_of_words(ws)[8 * i + r] == le_bytes_of_word(ws[i])[r],
    decreases i,
{
    lemma_bytes_of_words_len(ws);
    lemma_bytes_of_words_len(ws.drop_first());
    if i == 0 {
    } else {
        lemma_bytes_of_words_index(ws.drop_first(), i - 1, r);
        assert(bytes_of_words(ws)[8 + (8 * (i - 1) + r)] == bytes_of_words(ws.drop_first())[8 * (i
            - 1) + r]);
    }
}

/// The law of the byte layer: the words read back out of their own bytes
/// are themselves.
pub proof fn lemma_words_byte_round_trip(ws: Seq<u64>)
    ensures
        spec_words_of_bytes(bytes_of_words(ws)) == Some(ws),
{
    let bs = bytes_of_words(ws);
    lemma_bytes_of_words_len(ws);
    assert(bs.len() % 8 == 0);
    assert(bs.len() / 8 == ws.len());
    let out = spec_words_of_bytes(bs)->Some_0;
    assert forall|i: int| 0 <= i < ws.len() implies out[i] == ws[i] by {
        assert(bs.subrange(8 * i, 8 * i + 8) =~= le_bytes_of_word(ws[i])) by {
            assert forall|r: int| 0 <= r < 8 implies bs.subrange(8 * i, 8 * i + 8)[r]
                == le_bytes_of_word(ws[i])[r] by {
                lemma_bytes_of_words_index(ws, i, r);
            }
        }
        lemma_word_byte_round_trip(ws[i]);
    }
    assert(out =~= ws);
}

/// Serializes a network's persisted state: weight matrices, learning rate,
/// momentum and activation tag, as little-endian bytes.  `decode` proves
/// the stream back into an equal state.
pub fn encode(nn: &FeedForward) -> (r: Vec<u8>)
    requires
        nn.wf(),
    ensures
        r@ == bytes_of_words(words_of_model(model_of(*nn))),
        model_wf(model_of(*nn)),
{
    let ws = encode_words(nn);
    let mut out: Vec<u8> = Vec::new();
    let mut i: usize = 0;
    while i < ws.len()
        invariant
            i <= ws@.len(),
            out@ == bytes_of_words(ws@.take(i as int)),
        decreases ws@.len() - i,
    {
        let w = ws[i];
        out.push((w & 0xff) as u8);
        out.push(((w >> 8) & 0xff) as u8);
        out.push(((w >> 16) & 0xff) as u8);
        out.push(((w >> 24) & 0xff) as u8);
        out.push(((w >> 32) & 0xff) as u8);
        out.push(((w >> 40) & 0xff) as u8);
        out.push(((w >> 48) & 0xff) as u8);
        out.push(((w >> 56) & 0xff) as u8);
        i = i + 1;
        proof {
            assert(ws@.take(i as int) =~= ws@.take(i - 1).push(ws@[i - 1]));
            lemma_bytes_of_words_push(ws@.take(i - 1), ws@[i - 1]);
            assert(out@ =~= bytes_of_words(ws@.take(i - 1)) + le_bytes_of_word(ws@[i - 1]));
        }
    }
    proof {
        assert(ws@.take(ws@.len() as int) =~= ws@);
    }
    out
}

/// Restores a network from a byte stream written by `encode`: the stream
/// must hold whole words that spell a carriable model, otherwise the exact
/// fault is reported.  The network comes back with zeroed scratch, no
/// recorded error, and — `Custom` aside — the activation pair its tag
/// names; a custom pair must be re-attached by the caller.
pub fn decode(bytes: &Vec<u8>) -> (r: Result<FeedForward, DecodeError>)
    ensures
        match spec_decode(bytes@) {
            Some(m) => r matches Ok(net) && model_of(net) == m && net.wf() && spec_fresh(net),
            None => r is Err,
        },
{
    proof {
        assert(bytes.len() == bytes@.len());
    }
    if bytes.len() % 8 != 0 {
        return Err(DecodeError::Truncated);
    }
    let count = bytes.len() / 8;
    let mut ws: Vec<u64> = Vec::new();
    let mut i: usize = 0;
    while i < count
        invariant
            bytes@.len() % 8 == 0,
            bytes@.len() <= usize::MAX,
            count == bytes@.len() / 8,
            i <= count,
            ws@.len() == i,
            forall|t: int|
                0 <= t < i ==> ws@[t] == word_of_le_bytes(
                    #[trigger] bytes@.subrange(8 * t, 8 * t + 8),
                ),
        decreases count - i,
    {
        let base = 8 * i;
        let w = (bytes[base] as u64) | (bytes[base + 1] as u64) << 8 | (bytes[base + 2] as u64)
            << 16 | (bytes[base + 3] as u64) << 24 | (bytes[base + 4] as u64) << 32 | (bytes[base
            + 5] as u64) << 40 | (bytes[base + 6] as u64) << 48 | (bytes[base + 7] as u64) << 56;
        ws.push(w);
        i = i + 1;
        proof {
            let t = i - 1;
            let sub = bytes@.subrange(8 * t, 8 * t + 8);
            assert(sub[0] == bytes@[8 * t] && sub[1] == bytes@[8 * t + 1] && sub[2] == bytes@[8 * t
                + 2] && sub[3] == bytes@[8 * t + 3] && sub[4] == bytes@[8 * t + 4] && sub[5]
                == bytes@[8 * t + 5] && sub[6] == bytes@[8 * t + 6] && sub[7] == bytes@[8 * t
                + 7]);
        }
    }
    proof {
        let parsed = spec_words_of_bytes(bytes@)->Some_0;
        assert(ws@ =~= parsed);
    }
    decode_words(&ws)
}

// ---------------------------------------------------------------------------
// The text layer: words as a JSON array of decimal numbers.
// ---------------------------------------------------------------------------

/// Decimal value of a digit character; ten for any other character.
pub open spec fn digit_of(c: char) -> int {
    if c == '0' {
        0
    } else if c == '1' {
        1
    } else if c == '2' {
        2
    } else if c == '3' {
        3
    } else if c == '4' {
        4
    } else if c == '5' {
        5
    } else if c == '6' {
        6
    } else if c == '7' {
        7
    } else if c == '8' {
        8
    } else if c == '9' {
        9
    } else {
        10
    }
}

/// Whether a character is a decimal digit.
pub open spec fn is_digit_char(c: char) -> bool {
    digit_of(c) < 10
}

/// The digit character of a value below ten.
pub open spec fn char_of_digit(d: int) -> char {
    if d == 0 {
        '0'
    } else if d == 1 {
        '1'
    } else if d == 2 {
        '2'
    } else if d == 3 {
        '3'
    } else if d == 4 {
        '4'
    } else if d == 5 {
        '5'
    } else if d == 6 {
        '6'
    } else if d == 7 {
        '7'
    } else if d == 8 {
        '8'
    } else {
        '9'
    }
}

/// The canonical decimal rendering of a number, most significant digit
/// first and without leading zeroes.
pub open spec fn dec_of(n: nat) -> Seq<char>
    decreases n,
{
    if n < 10 {
        seq![char_of_digit(n as int)]
    } else {
        dec_of(n / 10).push(char_of_digit((n % 10) as int))
    }
}

/// The value a digit string spells.
pub open spec fn val_of(s: Seq<char>) -> int
    decreases s.len(),
{
    if s.len() == 0 {
        0
    } else {
        10 * val_of(s.drop_last()) + digit_of(s.last())
    }
}

/// A token the format accepts: a non-empty digit run, no leading zero
/// unless it is the single digit zero, and a value that fits a word.
pub open spec fn canonical(tok: Seq<char>) -> bool {
    &&& tok.len() >= 1
    &&& forall|i: int| 0 <= i < tok.len() ==> is_digit_char(#[trigger] tok[i])
    &&& (tok[0] != '0' || tok.len() == 1)
    &&& val_of(tok) <= u64::MAX
}

/// First position in `[pos, lim)` holding a non-digit, or `lim`.
pub open spec fn digits_end(s: Seq<char>, pos: int, lim: int) -> int
    decreases lim - pos,
    when pos <= lim
{
    if pos == lim {
        pos
    } else if is_digit_char(s[pos]) {
        digits_end(s, pos + 1, lim)
    } else {
        pos
    }
}

/// Reads comma-separated decimal numbers from `pos` up to the closing
/// bracket at the end of `s`.
pub open spec fn parse_items(s: Seq<char>, pos: int) -> Option<Seq<u64>>
    decreases s.len() - pos,
    when 1 <= pos <= s.len() - 1
{
    let lim = s.len() - 1;
    let e = digits_end(s, pos, lim);
    if e <= pos {
        None
    } else {
        let tok = s.subrange(pos, e);
        if !canonical(tok) {
            None
        } else {
            let w = val_of(tok) as u64;
            if e >= lim {
                Some(seq![w])
            } else if s[e] == ',' {
                match parse_items(s, e + 1) {
                    None => None,
                    Some(rest) => Some(seq![w] + rest),
                }
            } else {
                None
            }
        }
    }
}

/// The words a text spells: a bracketed, comma-separated list of canonical
/// decimal numbers, and nothing else.
pub open spec fn spec_json_words(s: Seq<char>) -> Option<Seq<u64>> {
    if s.len() < 2 || s[0] != '[' || s[s.len() - 1] != ']' {
        None
    } else if s.len() == 2 {
        Some(Seq::empty())
    } else {
        parse_items(s, 1)
    }
}

/// The model a text spells, if any.
pub open spec fn spec_parse_json(s: Seq<char>) -> Option<NetModel> {
    match spec_json_words(s) {
        None => None,
        Some(ws) => spec_parse_model(ws),
    }
}

/// One number rendered after another, separated by commas.
pub open spec fn render_items(ws: Seq<u64>) -> Seq<char>
    decreases ws.len(),
{
    if ws.len() == 0 {
        Seq::empty()
    } else if ws.len() == 1 {
        dec_of(ws[0] as nat)
    } else {
        dec_of(ws.first() as nat) + seq![','] + render_items(ws.drop_first())
    }
}

/// Words rendered as a JSON array of decimal numbers.
pub open spec fn spec_render_words(ws: Seq<u64>) -> Seq<char> {
    seq!['['] + render_items(ws) + seq![']']
}

/// What the decimal rendering of a number looks like: at least one digit,
/// every character a digit, no leading zero unless the number is zero, and
/// it spells the number back.
proof fn lemma_dec_props(n: nat)
    ensures
        dec_of(n).len() >= 1,
        forall|i: int| 0 <= i < dec_of(n).len() ==> is_digit_char(#[trigger] dec_of(n)[i]),
        dec_of(n)[0] != '0' || n < 10,
        n == 0 ==> dec_of(n) == seq!['0'],
        val_of(dec_of(n)) == n,
    decreases n,
{
    if n < 10 {
        assert(val_of(dec_of(n)) == 10 * val_of(dec_of(n).drop_last()) + digit_of(
            char_of_digit(n as int),
        ));
        assert(dec_of(n).drop_last() =~= Seq::<char>::empty());
    } else {
        lemma_div_decreases(n as int, 10);
        lemma_fundamental_div_mod(n as int, 10);
        lemma_dec_props(n / 10);
        let d = dec_of(n);
        assert(d.drop_last() =~= dec_of(n / 10));
        assert(d.last() == char_of_digit((n % 10) as int));
        assert(val_of(d) == 10 * (n / 10) + (n % 10));
        assert(d[0] == dec_of(n / 10)[0]);
        assert(n / 10 >= 1);
        if n / 10 < 10 {
            assert(dec_of(n / 10)[0] == char_of_digit((n / 10) as int));
        }
    }
}

/// A digit string spells a value of at least zero.
proof fn lemma_val_nonneg(s: Seq<char>)
    requires
        forall|i: int| 0 <= i < s.len() ==> is_digit_char(#[trigger] s[i]),
    ensures
        val_of(s) >= 0,
    decreases s.len(),
{
    if s.len() > 0 {
        assert(forall|i: int|
            0 <= i < s.drop_last().len() ==> is_digit_char(#[trigger] s.drop_last()[i]));
        lemma_val_nonneg(s.drop_last());
    }
}

/// Digit strings spell values that only grow as digits are appended: every
/// prefix spells at most the whole.
proof fn lemma_val_prefix(s: Seq<char>, i: int)
    requires
        forall|k: int| 0 <= k < s.len() ==> is_digit_char(#[trigger] s[k]),
        0 <= i <= s.len(),
    ensures
        val_of(s.take(i)) <= val_of(s),
    decreases s.len() - i,
{
    if i == s.len() {
        assert(s.take(i) =~= s);
    } else {
        lemma_val_prefix(s, i + 1);
        let t = s.take(i + 1);
        assert(t.drop_last() =~= s.take(i));
        assert(t.last() == s[i]);
        assert(forall|k: int| 0 <= k < t.len() ==> is_digit_char(#[trigger] t[k]));
        assert(forall|k: int|
            0 <= k < s.take(i).len() ==> is_digit_char(#[trigger] s.take(i)[k]));
        lemma_val_nonneg(s.take(i));
        assert(val_of(t) == 10 * val_of(s.take(i)) + digit_of(s[i]));
    }
}

/// Where a run of digits ends: everything before is a digit, and the run
/// stops only at the limit or at a non-digit.
proof fn lemma_digits_end_props(s: Seq<char>, pos: int, lim: int)
    requires
        0 <= pos <= lim <= s.len(),
    ensures
        pos <= digits_end(s, pos, lim) <= lim,
        forall|k: int| pos <= k < digits_end(s, pos, lim) ==> is_digit_char(#[trigger] s[k]),
        digits_end(s, pos, lim) < lim ==> !is_digit_char(s[digits_end(s, pos, lim)]),
    decreases lim - pos,
{
    if pos == lim {
    } else if is_digit_char(s[pos]) {
        lemma_digits_end_props(s, pos + 1, lim);
    }
}

/// A run known to hold digits up to `e`, and to stop there, ends there.
proof fn lemma_digits_end_is(s: Seq<char>, pos: int, lim: int, e: int)
    requires
        0 <= pos <= e <= lim <= s.len(),
        forall|k: int| pos <= k < e ==> is_digit_char(#[trigger] s[k]),
        e == lim || !is_digit_char(s[e]),
    ensures
        digits_end(s, pos, lim) == e,
    decreases e - pos,
{
    if pos < e {
        lemma_digits_end_is(s, pos + 1, lim, e);
    }
}

/// Appending a word to a non-empty run adds a comma and its rendering.
proof fn lemma_render_items_push(ws: Seq<u64>, x: u64)
    requires
        ws.len() >= 1,
    ensures
        render_items(ws.push(x)) == render_items(ws) + seq![','] + dec_of(x as nat),
    decreases ws.len(),
{
    if ws.len() == 1 {
        assert(ws.push(x).drop_first() =~= seq![x]);
        assert(render_items(ws.push(x)) == dec_of(ws[0] as nat) + seq![','] + render_items(
            seq![x],
        ));
    } else {
        assert(ws.push(x).drop_first() =~= ws.drop_first().push(x));
        lemma_render_items_push(ws.drop_first(), x);
        assert(render_items(ws.push(x)) == dec_of(ws.first() as nat) + seq![','] + (render_items(
            ws.drop_first(),
        ) + seq![','] + dec_of(x as nat)));
        assert(dec_of(ws.first() as nat) + seq![','] + (render_items(ws.drop_first()) + seq![',']
            + dec_of(x as nat)) =~= (dec_of(ws.first() as nat) + seq![','] + render_items(
            ws.drop_first(),
        )) + seq![','] + dec_of(x as nat));
    }
}

/// Parsing items out of their own rendering gives the words back.
proof fn lemma_parse_items_of_render(s: Seq<char>, pos: int, ws: Seq<u64>)
    requires
        ws.len() >= 1,
        1 <= pos <= s.len() - 1,
        s.subrange(pos, s.len() - 1) == render_items(ws),
    ensures
        parse_items(s, pos) == Some(ws),
    decreases ws.len(),
{
    let lim = s.len() - 1;
    let dec = dec_of(ws[0] as nat);
    lemma_dec_props(ws[0] as nat);
    assert(render_items(ws)[0] == dec[0]);
    if ws.len() == 1 {
        assert(render_items(ws) == dec);
        assert(lim - pos == dec.len());
        assert forall|k: int| pos <= k < lim implies is_digit_char(#[trigger] s[k]) by {
            assert(s.subrange(pos, lim)[k - pos] == dec[k - pos]);
        }
        lemma_digits_end_is(s, pos, lim, lim);
        let tok = s.subrange(pos, lim);
        assert(tok =~= dec);
        assert(canonical(tok));
        assert(val_of(tok) as u64 == ws[0]);
        assert(seq![ws[0]] =~= ws);
    } else {
        let rest = render_items(ws.drop_first());
        assert(render_items(ws) == dec + seq![','] + rest);
        let e = pos + dec.len();
        assert forall|k: int| pos <= k < e implies is_digit_char(#[trigger] s[k]) by {
            assert(s.subrange(pos, lim)[k - pos] == dec[k - pos]);
        }
        assert(s.subrange(pos, lim)[e - pos] == (dec + seq![','] + rest)[dec.len() as int]);
        assert(s[e] == ',');
        assert(!is_digit_char(','));
        lemma_digits_end_is(s, pos, lim, e);
        let tok = s.subrange(pos, e);
        assert(tok =~= dec) by {
            assert forall|k: int| 0 <= k < dec.len() implies tok[k] == dec[k] by {
                assert(s.subrange(pos, lim)[k] == (dec + seq![','] + rest)[k]);
            }
        }
        assert(canonical(tok));
        assert(val_of(tok) as u64 == ws[0]);
        assert(s.subrange(e + 1, lim) =~= rest) by {
            assert forall|k: int| 0 <= k < rest.len() implies s.subrange(e + 1, lim)[k]
                == rest[k] by {
                assert(s.subrange(pos, lim)[dec.len() + 1 + k] == (dec + seq![','] + rest)[
                dec.len() + 1 + k]);
            }
        }
        lemma_parse_items_of_render(s, e + 1, ws.drop_first());
        assert(seq![ws[0]] + ws.drop_first() =~= ws);
    }
}

/// The law of the text layer: words read back out of their own rendering
/// are themselves.
pub proof fn lemma_json_words_round_trip(ws: Seq<u64>)
    ensures
        spec_json_words(spec_render_words(ws)) == Some(ws),
{
    let s = spec_render_words(ws);
    if ws.len() == 0 {
        assert(s =~= seq!['[', ']']);
        assert(spec_json_words(s) == Some(Seq::<u64>::empty()));
        assert(Seq::<u64>::empty() =~= ws);
    } else {
        lemma_dec_props(ws[0] as nat);
        assert(render_items(ws)[0] == dec_of(ws[0] as nat)[0]);
        assert(render_items(ws).len() >= 1);
        assert(s[0] == '[');
        assert(s[s.len() - 1] == ']');
        assert(s.subrange(1, s.len() - 1) =~= render_items(ws));
        lemma_parse_items_of_render(s, 1, ws);
    }
}

/// The digit character of a value below ten.
fn digit_char(d: u64) -> (c: char)
    requires
        d < 10,
    ensures
        c == char_of_digit(d as int),
{
    if d == 0 {
        '0'
    } else if d == 1 {
        '1'
    } else if d == 2 {
        '2'
    } else if d == 3 {
        '3'
    } else if d == 4 {
        '4'
    } else if d == 5 {
        '5'
    } else if d == 6 {
        '6'
    } else if d == 7 {
        '7'
    } else if d == 8 {
        '8'
    } else {
        '9'
    }
}

/// Decimal value of a digit character; ten for any other character.
fn digit_val(c: char) -> (d: u64)
    ensures
        d == digit_of(c),
{
    if c == '0' {
        0
    } else if c == '1' {
        1
    } else if c == '2' {
        2
    } else if c == '3' {
        3
    } else if c == '4' {
        4
    } else if c == '5' {
        5
    } else if c == '6' {
        6
    } else if c == '7' {
        7
    } else if c == '8' {
        8
    } else if c == '9' {
        9
    } else {
        10
    }
}

/// Appends the canonical decimal rendering of a number.
fn push_dec(out: &mut Vec<char>, w: u64)
    ensures
        final(out)@ == old(out)@ + dec_of(w as nat),
    decreases w,
{
    if w >= 10 {
        proof {
            lemma_div_decreases(w as int, 10);
        }
        push_dec(out, w / 10);
    }
    out.push(digit_char(w % 10));
    proof {
        if w < 10 {
            assert(old(out)@ + dec_of(w as nat) =~= old(out)@.push(char_of_digit((w % 10) as int)));
        } else {
            assert(old(out)@ + dec_of(w as nat) =~= (old(out)@ + dec_of((w / 10) as nat)).push(
                char_of_digit((w % 10) as int),
            ));
        }
    }
}

/// Relies on `String`'s `FromIterator` over characters: collecting a
/// vector's characters yields the string of exactly those characters, in
/// order.
#[verifier::external_body]
fn string_from_chars(v: &Vec<char>) -> (r: String)
    ensures
        r@ == v@,
{
    v.iter().collect()
}

/// Serializes a network's persisted state as a JSON array of decimal
/// numbers — the same words `encode` writes as bytes, spelled in decimal.
/// `from_json` proves the text back into an equal state.
pub fn to_json(nn: &FeedForward) -> (r: String)
    requires
        nn.wf(),
    ensures
        r@ == spec_render_words(words_of_model(model_of(*nn))),
        model_wf(model_of(*nn)),
{
    let ws = encode_words(nn);
    let mut out: Vec<char> = Vec::new();
    out.push('[');
    let mut i: usize = 0;
    while i < ws.len()
        invariant
            i <= ws@.len(),
            out@ == seq!['['] + render_items(ws@.take(i as int)),
        decreases ws@.len() - i,
    {
        if i > 0 {
            out.push(',');
            push_dec(&mut out, ws[i]);
            proof {
                assert(ws@.take(i + 1) =~= ws@.take(i as int).push(ws@[i as int]));
                lemma_render_items_push(ws@.take(i as int), ws@[i as int]);
                assert(out@ =~= seq!['['] + render_items(ws@.take(i + 1)));
            }
        } else {
            push_dec(&mut out, ws[i]);
            proof {
                assert(ws@.take(1) =~= seq![ws@[0]]);
                assert(out@ =~= seq!['['] + render_items(ws@.take(1)));
            }
        }
        i = i + 1;
    }
    out.push(']');
    proof {
        assert(ws@.take(ws@.len() as int) =~= ws@);
        assert(out@ =~= spec_render_words(words_of_model(model_of(*nn))));
    }
    string_from_chars(&out)
}

/// Prefixes already-read words onto the outcome of reading the remainder.
spec fn glue_words(done: Seq<u64>, rest: Option<Seq<u64>>) -> Option<Seq<u64>> {
    match rest {
        None => None,
        Some(ws) => Some(done + ws),
    }
}

/// Restores a network from a JSON text written by `to_json`: a bracketed
/// list of canonical decimal numbers spelling a carriable model — anything
/// else is rejected.  The network comes back with zeroed scratch and no
/// recorded error; a custom activation pair must be re-attached by the
/// caller.
pub fn from_json(s: &str) -> (r: Result<FeedForward, DecodeError>)
    ensures
        match spec_parse_json(s@) {
            Some(m) => r matches Ok(net) && model_of(net) == m && net.wf() && spec_fresh(net),
            None => r is Err,
        },
{
    let n = s.unicode_len();
    if n < 2 {
        return Err(DecodeError::Malformed);
    }
    if s.get_char(0) != '[' {
        return Err(DecodeError::Malformed);
    }
    if s.get_char(n - 1) != ']' {
        return Err(DecodeError::Malformed);
    }
    if n == 2 {
        return Err(DecodeError::Truncated);
    }
    let mut ws: Vec<u64> = Vec::new();
    let mut pos: usize = 1;
    loop
        invariant_except_break
            n == s@.len(),
            3 <= n,
            n <= usize::MAX,
            s@[0] == '[',
            s@[n - 1] == ']',
            1 <= pos <= n - 1,
            parse_items(s@, 1) == glue_words(ws@, parse_items(s@, pos as int)),
        ensures
            parse_items(s@, 1) == Some(ws@),
        decreases n - pos,
    {
        let ghost done = ws@;
        let lim = n - 1;
        // scan one number
        let mut e: usize = pos;
        let mut acc: u64 = 0;
        let mut overflow = false;
        while e < lim && digit_val(s.get_char(e)) < 10
            invariant
                n == s@.len(),
                n <= usize::MAX,
                lim == n - 1,
                1 <= pos <= e <= lim,
                forall|k: int| pos <= k < e ==> is_digit_char(#[trigger] s@[k]),
                !overflow ==> acc == val_of(s@.subrange(pos as int, e as int)),
                overflow ==> val_of(s@.subrange(pos as int, e as int)) > u64::MAX,
            decreases lim - e,
        {
            let d = digit_val(s.get_char(e));
            let ghost pre = s@.subrange(pos as int, e as int);
            if !overflow {
                if acc > (u64::MAX - d) / 10 {
                    overflow = true;
                } else {
                    proof {
                        lemma_fundamental_div_mod((u64::MAX - d) as int, 10);
                    }
                    acc = acc * 10 + d;
                }
            }
            e = e + 1;
            proof {
                let cur = s@.subrange(pos as int, e as int);
                assert(cur.drop_last() =~= pre);
                assert(cur.last() == s@[e - 1]);
                assert(val_of(cur) == 10 * val_of(pre) + digit_of(s@[e - 1]));
                if overflow {
                    assert(forall|k: int| 0 <= k < pre.len() ==> is_digit_char(#[trigger] pre[k]));
                    lemma_val_nonneg(pre);
                    if val_of(pre) <= u64::MAX {
                        lemma_fundamental_div_mod((u64::MAX - digit_of(s@[e - 1])) as int, 10);
                    }
                }
            }
        }
        proof {
            lemma_digits_end_is(s@, pos as int, lim as int, e as int);
        }
        if e == pos {
            // no digits where a number must stand
            return Err(DecodeError::Malformed);
        }
        let ghost tok = s@.subrange(pos as int, e as int);
        if overflow {
            proof {
                assert(!canonical(tok));
            }
            return Err(DecodeError::Malformed);
        }
        if s.get_char(pos) == '0' && e > pos + 1 {
            proof {
                assert(tok[0] == '0' && tok.len() > 1);
                assert(!canonical(tok));
            }
            return Err(DecodeError::Malformed);
        }
        proof {
            assert(canonical(tok));
        }
        ws.push(acc);
        if e == lim {
            proof {
                assert(parse_items(s@, pos as int) == Some(seq![acc]));
                assert(done + seq![acc] =~= ws@);
            }
            break;
        }
        if s.get_char(e) != ',' {
            proof {
                assert(parse_items(s@, pos as int) is None);
            }
            return Err(DecodeError::Malformed);
        }
        pos = e + 1;
        proof {
            let after = parse_items(s@, pos as int);
            assert(parse_items(s@, (pos - 1 - tok.len()) as int) == (match after {
                None => None::<Seq<u64>>,
                Some(rest) => Some(seq![acc] + rest),
            }));
            match after {
                None => {}
                Some(rest) => {
                    assert(done + (seq![acc] + rest) =~= (done + seq![acc]) + rest);
                    assert(done + seq![acc] =~= ws@);
                }
            }
        }
    }
    proof {
        assert(spec_json_words(s@) == Some(ws@));
    }
    decode_words(&ws)
}

/// The law of the persistence format: a well-formed persisted image, written
/// as bytes by `encode`, is read back whole by `decode`.
pub proof fn lemma_encode_decode_round_trip(m: NetModel)
    requires
        model_wf(m),
    ensures
        spec_decode(bytes_of_words(words_of_model(m))) == Some(m),
{
    lemma_words_byte_round_trip(words_of_model(m));
    lemma_parse_of_words(m);
}

/// The law of the text format: a well-formed persisted image, rendered by
/// `to_json`, is read back whole by `from_json`.
pub proof fn lemma_json_round_trip(m: NetModel)
    requires
        model_wf(m),
    ensures
        spec_parse_json(spec_render_words(words_of_model(m))) == Some(m),
{
    lemma_json_words_round_trip(words_of_model(m));
    lemma_parse_of_words(m);
}

} // verus!
