//! Layered arithmetic circuits of two-input gates, and the multilinear
//! wiring predicates of a layer.

use crate::field::{fadd, fmul, Fe};
use crate::multilinear::{lemma_pow2_exponent_bound, pow2_usize, values};
use vstd::arithmetic::power2::{lemma_pow2_adds, lemma_pow2_pos, pow2};
use vstd::prelude::*;

verus! {

#[derive(Clone, Copy, Debug, PartialEq, Eq, Structural)]
pub enum GateOp {
    Add,
    Mul,
}

/// A gate reads `left_index` and `right_index` of the layer below and writes
/// `output_index` of its own layer.
#[derive(Clone, Copy, Debug, PartialEq, Eq, Structural)]
pub struct Gate {
    pub left_index: usize,
    pub right_index: usize,
    pub output_index: usize,
    pub op: GateOp,
}

/// What a gate computes from the values of the layer below.
pub open spec fn gate_value(g: Gate, cur: Seq<int>) -> int {
    match g.op {
        GateOp::Add => fadd(cur[g.left_index as int], cur[g.right_index as int]),
        GateOp::Mul => fmul(cur[g.left_index as int], cur[g.right_index as int]),
    }
}

/// The largest output index of the gates, 0 when there are none.
pub open spec fn max_output(gates: Seq<Gate>) -> nat
    decreases gates.len(),
{
    if gates.len() == 0 {
        0
    } else {
        let m = max_output(gates.drop_last());
        if gates.last().output_index > m {
            gates.last().output_index as nat
        } else {
            m
        }
    }
}

/// The number of values a layer computes.
pub open spec fn layer_width(gates: Seq<Gate>) -> nat {
    max_output(gates) + 1
}

/// The gates run in order on `cur`, each writing its output into `out`; a
/// later gate with the same output index overwrites an earlier one.
pub open spec fn apply_gates(gates: Seq<Gate>, cur: Seq<int>, out: Seq<int>) -> Seq<int>
    decreases gates.len(),
{
    if gates.len() == 0 {
        out
    } else {
        apply_gates(gates.drop_last(), cur, out).update(
            gates.last().output_index as int,
            gate_value(gates.last(), cur),
        )
    }
}

/// The values a layer computes from the values of the layer below; an
/// output no gate writes is zero.
pub open spec fn layer_output(gates: Seq<Gate>, cur: Seq<int>) -> Seq<int> {
    apply_gates(gates, cur, Seq::new(layer_width(gates), |k: int| 0))
}

/// The values that layer `i` reads: the input for `i == 0`, else the
/// output of layer `i - 1`.
pub open spec fn layer_input(layers: Seq<Seq<Gate>>, input: Seq<int>, i: nat) -> Seq<int>
    decreases i,
{
    if i == 0 {
        input
    } else {
        layer_output(layers[i - 1], layer_input(layers, input, (i - 1) as nat))
    }
}

/// How many values layer `i` reads.
pub open spec fn input_width(layers: Seq<Seq<Gate>>, input_len: nat, i: nat) -> nat {
    if i == 0 {
        input_len
    } else {
        layer_width(layers[i - 1])
    }
}

/// Every gate reads values that exist, and the circuit has a result.
pub open spec fn fits_input(layers: Seq<Seq<Gate>>, input_len: nat) -> bool {
    &&& layers.len() == 0 ==> input_len > 0
    &&& forall|i: int, j: int|
        0 <= i < layers.len() && 0 <= j < layers[i].len() ==> {
            let g = #[trigger] layers[i][j];
            &&& g.left_index < input_width(layers, input_len, i as nat)
            &&& g.right_index < input_width(layers, input_len, i as nat)
            &&& g.output_index < usize::MAX
        }
}

/// The layers as sequences of gates.
pub open spec fn gate_layers(layers: Seq<Vec<Gate>>) -> Seq<Seq<Gate>> {
    layers.map_values(|l: Vec<Gate>| l@)
}

/// Each output index is at most the largest.
pub proof fn lemma_max_output(gates: Seq<Gate>)
    ensures
        forall|k: int| 0 <= k < gates.len() ==> (#[trigger] gates[k]).output_index <= max_output(
            gates,
        ),
    decreases gates.len(),
{
    if gates.len() > 0 {
        lemma_max_output(gates.drop_last());
        assert forall|k: int| 0 <= k < gates.len() implies (#[trigger] gates[k]).output_index
            <= max_output(gates) by {
            if k < gates.len() - 1 {
                assert(gates[k] == gates.drop_last()[k]);
            }
        }
    }
}

/// The largest output index is below any bound on all of them.
pub proof fn lemma_max_output_bound(gates: Seq<Gate>, b: nat)
    requires
        b > 0,
        forall|k: int| 0 <= k < gates.len() ==> (#[trigger] gates[k]).output_index < b,
    ensures
        max_output(gates) < b,
    decreases gates.len(),
{
    if gates.len() > 0 {
        let g = gates.drop_last();
        assert forall|k: int| 0 <= k < g.len() implies (#[trigger] g[k]).output_index < b by {
            assert(g[k] == gates[k]);
        }
        lemma_max_output_bound(g, b);
        assert(gates[gates.len() - 1] == gates.last());
    }
}

/// Running gates keeps the length of the output.
pub proof fn lemma_apply_gates_len(gates: Seq<Gate>, cur: Seq<int>, out: Seq<int>)
    requires
        forall|k: int| 0 <= k < gates.len() ==> (#[trigger] gates[k]).output_index < out.len(),
    ensures
        apply_gates(gates, cur, out).len() == out.len(),
    decreases gates.len(),
{
    if gates.len() > 0 {
        let g = gates.drop_last();
        assert forall|k: int| 0 <= k < g.len() implies (#[trigger] g[k]).output_index < out.len() by {
            assert(g[k] == gates[k]);
        }
        lemma_apply_gates_len(g, cur, out);
        assert(gates[gates.len() - 1] == gates.last());
    }
}

/// The layer's values, each the same in the layer's input.
pub proof fn lemma_layer_input_len(layers: Seq<Seq<Gate>>, input: Seq<int>, i: nat)
    requires
        i <= layers.len(),
    ensures
        layer_input(layers, input, i).len() == input_width(layers, input.len(), i),
{
    if i > 0 {
        lemma_max_output(layers[i - 1]);
        lemma_apply_gates_len(
            layers[i - 1],
            layer_input(layers, input, (i - 1) as nat),
            Seq::new(layer_width(layers[i - 1]), |k: int| 0),
        );
    }
}

/// The least `b` with `2^b >= x`.
pub open spec fn ceil_log2(x: nat) -> nat
    decreases x,
{
    if x <= 1 {
        0
    } else {
        1 + ceil_log2(((x + 1) / 2) as nat)
    }
}

/// Bits that address a gate input of a layer of `n_gates` gates.
pub open spec fn input_bits(n_gates: nat) -> nat {
    ceil_log2(2 * n_gates)
}

/// Bits that address a gate output, given the input bits.
pub open spec fn output_bits(in_bits: nat) -> nat {
    if in_bits <= 1 {
        1
    } else {
        (in_bits - 1) as nat
    }
}

/// The bits of a layer's wiring tables: an output and two inputs.
pub open spec fn wiring_bits(n_gates: nat) -> nat {
    2 * input_bits(n_gates) + output_bits(input_bits(n_gates))
}

/// The table index of a gate: its output, left and right indices, each in
/// its own field of bits.
pub open spec fn packed_index(g: Gate, in_bits: nat) -> int {
    (g.output_index * pow2(in_bits) + g.left_index) * pow2(in_bits) + g.right_index
}

/// The wiring predicate of a layer for the operation `op`: 1 at the packed
/// index of each gate with that operation, 0 elsewhere. An empty layer has
/// a two-entry zero table.
pub open spec fn wiring_table(gates: Seq<Gate>, op: GateOp) -> Seq<int> {
    if gates.len() == 0 {
        seq![0, 0]
    } else {
        Seq::new(
            pow2(wiring_bits(gates.len())),
            |k: int|
                if exists|j: int|
                    0 <= j < gates.len() && (#[trigger] gates[j]).op == op && packed_index(
                        gates[j],
                        input_bits(gates.len()),
                    ) == k {
                    1
                } else {
                    0
                },
        )
    }
}

/// Each gate's indices fit in their fields, and the tables fit in memory.
pub open spec fn wiring_fits(gates: Seq<Gate>) -> bool {
    gates.len() > 0 ==> {
        let ib = input_bits(gates.len());
        &&& pow2(wiring_bits(gates.len())) <= usize::MAX
        &&& forall|j: int|
            0 <= j < gates.len() ==> {
                &&& (#[trigger] gates[j]).left_index < pow2(ib)
                &&& gates[j].right_index < pow2(ib)
                &&& gates[j].output_index < pow2(output_bits(ib))
            }
    }
}

/// Doubling adds one bit.
pub proof fn lemma_ceil_log2_double(n: nat)
    requires
        n >= 1,
    ensures
        ceil_log2(2 * n) == 1 + ceil_log2(n),
{
    assert((2 * n + 1) / 2 == n);
}

/// `ceil_log2(x)`, computed.
pub fn ceil_log2_usize(x: usize) -> (r: usize)
    ensures
        r == ceil_log2(x as nat),
        r <= x,
    decreases x,
{
    if x <= 1 {
        0
    } else {
        1 + ceil_log2_usize(x / 2 + x % 2)
    }
}

/// A zero table.
fn zeros(len: usize) -> (r: Vec<Fe>)
    ensures
        values(r@) == Seq::new(len as nat, |k: int| 0int),
        r@.len() == len,
        forall|k: int| 0 <= k < len ==> (#[trigger] r@[k])@ == 0,
{
    let mut r: Vec<Fe> = Vec::new();
    let mut i: usize = 0;
    while i < len
        invariant
            i <= len,
            r@.len() == i,
            forall|k: int| 0 <= k < i ==> (#[trigger] r@[k])@ == 0,
        decreases len - i,
    {
        r.push(Fe::zero());
        i = i + 1;
    }
    assert(values(r@) =~= Seq::new(len as nat, |k: int| 0int));
    r
}

impl Gate {
    pub fn new(left_index: usize, right_index: usize, output_index: usize, op: GateOp) -> (r: Gate)
        ensures
            r == (Gate { left_index, right_index, output_index, op }),
    {
        Gate { left_index, right_index, output_index, op }
    }

    /// Applies the operation to the two values it reads.
    pub fn execute_gate(&mut self, inputs: Vec<Fe>) -> (r: Fe)
        requires
            old(self).left_index < inputs@.len(),
            old(self).right_index < inputs@.len(),
        ensures
            *final(self) == *old(self),
            r@ == gate_value(*old(self), values(inputs@)),
    {
        match self.op {
            GateOp::Add => inputs[self.left_index].add(&inputs[self.right_index]),
            GateOp::Mul => inputs[self.left_index].mul(&inputs[self.right_index]),
        }
    }
}

/// A circuit: its layers of gates, and the values each layer computed in
/// the last evaluation.
#[derive(Clone, Debug)]
pub struct Circuit {
    pub layers: Vec<Vec<Gate>>,
    pub w_polys: Vec<Vec<Fe>>,
}

impl Circuit {
    pub fn new(layers: Vec<Vec<Gate>>) -> (r: Circuit)
        ensures
            r.layers@ == layers@,
            r.w_polys@.len() == 0,
    {
        Circuit { layers, w_polys: Vec::new() }
    }

    /// Runs the circuit on `input` and returns the first value of the last
    /// layer (the first input when there are no layers). Each layer's values
    /// are kept in `w_polys`.
    pub fn evaluate(&mut self, input: Vec<Fe>) -> (r: Fe)
        requires
            fits_input(gate_layers(old(self).layers@), input@.len()),
        ensures
            final(self).layers == old(self).layers,
            final(self).w_polys@.len() == old(self).layers@.len(),
            forall|i: int|
                0 <= i < old(self).layers@.len() ==> values(
                    (#[trigger] final(self).w_polys@[i])@,
                ) == layer_input(gate_layers(old(self).layers@), values(input@), (i + 1) as nat),
            r@ == layer_input(
                gate_layers(old(self).layers@),
                values(input@),
                old(self).layers@.len(),
            )[0],
    {
        let ghost layers = gate_layers(self.layers@);
        let ghost inp = values(input@);
        let mut w_polys: Vec<Vec<Fe>> = Vec::new();
        let mut current_layer = input;
        let mut i: usize = 0;
        proof {
            lemma_layer_input_len(layers, inp, 0);
        }
        while i < self.layers.len()
            invariant
                layers == gate_layers(self.layers@),
                fits_input(layers, inp.len()),
                i <= self.layers@.len(),
                values(current_layer@) == layer_input(layers, inp, i as nat),
                current_layer@.len() == input_width(layers, inp.len(), i as nat),
                w_polys@.len() == i,
                forall|k: int|
                    0 <= k < i ==> values((#[trigger] w_polys@[k])@) == layer_input(
                        layers,
                        inp,
                        (k + 1) as nat,
                    ),
            decreases self.layers@.len() - i,
        {
            let layer = &self.layers[i];
            let ghost gates = layers[i as int];
            assert(gates == layer@);
            let mut max_output_index: usize = 0;
            let mut j: usize = 0;
            while j < layer.len()
                invariant
                    gates == layer@,
                    layers == gate_layers(self.layers@),
                    fits_input(layers, inp.len()),
                    i < layers.len(),
                    gates == layers[i as int],
                    j <= gates.len(),
                    max_output_index == max_output(gates.take(j as int)),
                decreases gates.len() - j,
            {
                assert(gates.take(j + 1).drop_last() =~= gates.take(j as int));
                assert(layers[i as int][j as int] == gates[j as int]);
                if layer[j].output_index > max_output_index {
                    max_output_index = layer[j].output_index;
                }
                j = j + 1;
            }
            assert(gates.take(gates.len() as int) =~= gates);
            proof {
                assert forall|k: int| 0 <= k < gates.len() implies (#[trigger] gates[k]).output_index
                    < usize::MAX by {
                    assert(layers[i as int][k] == gates[k]);
                }
                lemma_max_output_bound(gates, usize::MAX as nat);
            }
            let width = max_output_index + 1;
            let mut output_vec: Vec<Fe> = Vec::new();
            let mut z: usize = 0;
            while z < width
                invariant
                    z <= width,
                    output_vec@.len() == z,
                    forall|k: int| 0 <= k < z ==> (#[trigger] output_vec@[k])@ == 0,
                decreases width - z,
            {
                output_vec.push(Fe::zero());
                z = z + 1;
            }
            let ghost cur = values(current_layer@);
            proof {
                lemma_max_output(gates);
                assert(values(output_vec@) =~= Seq::new(layer_width(gates), |k: int| 0));
                assert(gates.take(0) =~= Seq::<Gate>::empty());
            }
            let mut j: usize = 0;
            while j < layer.len()
                invariant
                    gates == layer@,
                    layers == gate_layers(self.layers@),
                    fits_input(layers, inp.len()),
                    i < layers.len(),
                    gates == layers[i as int],
                    j <= gates.len(),
                    cur == values(current_layer@),
                    current_layer@.len() == input_width(layers, inp.len(), i as nat),
                    width == layer_width(gates),
                    forall|k: int|
                        0 <= k < gates.len() ==> (#[trigger] gates[k]).output_index < width,
                    values(output_vec@) == apply_gates(
                        gates.take(j as int),
                        cur,
                        Seq::new(layer_width(gates), |k: int| 0),
                    ),
                decreases gates.len() - j,
            {
                let mut gate = layer[j];
                assert(layers[i as int][j as int] == gates[j as int]);
                let result = gate.execute_gate(current_layer.clone());
                proof {
                    assert(gates.take(j + 1).drop_last() =~= gates.take(j as int));
                    let gj = gates.take(j as int);
                    assert forall|k: int| 0 <= k < gj.len() implies (#[trigger] gj[k]).output_index
                        < width by {
                        assert(gj[k] == gates[k]);
                    }
                    lemma_apply_gates_len(gj, cur, Seq::new(layer_width(gates), |k: int| 0));
                }
                let ghost before = output_vec@;
                output_vec.set(gate.output_index, result);
                assert(values(output_vec@) =~= values(before).update(
                    gate.output_index as int,
                    result@,
                ));
                j = j + 1;
            }
            proof {
                assert(gates.take(gates.len() as int) =~= gates);
                lemma_layer_input_len(layers, inp, (i + 1) as nat);
            }
            w_polys.push(output_vec.clone());
            current_layer = output_vec;
            i = i + 1;
        }
        self.w_polys = w_polys;
        proof {
            lemma_layer_input_len(layers, inp, i as nat);
            if i > 0 {
                let g = layers[i - 1];
                lemma_max_output(g);
                lemma_apply_gates_len(
                    g,
                    layer_input(layers, inp, (i - 1) as nat),
                    Seq::new(layer_width(g), |k: int| 0),
                );
            }
        }
        current_layer[0]
    }

    /// The wiring predicates of layer `layer_id`: the Add table, then the
    /// Mul table.
    pub fn add_i_mle(&mut self, layer_id: usize) -> (r: Vec<Vec<Fe>>)
        requires
            layer_id < old(self).layers@.len(),
            wiring_fits(old(self).layers@[layer_id as int]@),
        ensures
            *final(self) == *old(self),
            r@.len() == 2,
            values(r@[0]@) == wiring_table(old(self).layers@[layer_id as int]@, GateOp::Add),
            values(r@[1]@) == wiring_table(old(self).layers@[layer_id as int]@, GateOp::Mul),
    {
        let layer_vec = &self.layers[layer_id];
        let ghost gates = layer_vec@;
        if layer_vec.len() == 0 {
            let add_vec = zeros(2);
            let mul_vec = zeros(2);
            assert(values(add_vec@) =~= seq![0int, 0int]);
            assert(values(mul_vec@) =~= seq![0int, 0int]);
            return vec![add_vec, mul_vec];
        }
        proof {
            lemma_ceil_log2_double(gates.len());
            lemma_pow2_exponent_bound(wiring_bits(gates.len()));
        }
        let in_bits = ceil_log2_usize(layer_vec.len()) + 1;
        let out_bits = if in_bits == 1 {
            1
        } else {
            in_bits - 1
        };
        let ghost ib = in_bits as nat;
        let ghost ob = out_bits as nat;
        proof {
            lemma_pow2_exponent_bound(wiring_bits(gates.len()));
            lemma_pow2_adds(ib, ib);
            lemma_pow2_adds(ib + ib, ob);
            lemma_pow2_pos(ib);
            lemma_pow2_pos(ob);
            assert(pow2(2 * ib + ob) == pow2(ob) * (pow2(ib) * pow2(ib))) by (nonlinear_arith)
                requires
                    pow2(ib + ib) == pow2(ib) * pow2(ib),
                    pow2(ib + ib + ob) == pow2(ib + ib) * pow2(ob),
            ;
            vstd::arithmetic::power2::lemma_pow2_strictly_increases(ib, 2 * ib + ob);
        }
        let total = in_bits * 2 + out_bits;
        let vector_size = pow2_usize(total as u32);
        let pw = pow2_usize(in_bits as u32);
        let mut add_vec = zeros(vector_size);
        let mut mul_vec = zeros(vector_size);
        let mut j: usize = 0;
        while j < layer_vec.len()
            invariant
                gates == layer_vec@,
                gates.len() > 0,
                ib == input_bits(gates.len()),
                ob == output_bits(ib),
                wiring_fits(gates),
                vector_size == pow2(wiring_bits(gates.len())),
                vector_size == pow2(ob) * (pow2(ib) * pow2(ib)),
                pw == pow2(ib),
                pw > 0,
                j <= gates.len(),
                add_vec@.len() == vector_size,
                mul_vec@.len() == vector_size,
                forall|k: int|
                    0 <= k < vector_size ==> (#[trigger] add_vec@[k])@ == if exists|i: int|
                        0 <= i < j && (#[trigger] gates[i]).op == GateOp::Add && packed_index(
                            gates[i],
                            ib,
                        ) == k {
                        1int
                    } else {
                        0int
                    },
                forall|k: int|
                    0 <= k < vector_size ==> (#[trigger] mul_vec@[k])@ == if exists|i: int|
                        0 <= i < j && (#[trigger] gates[i]).op == GateOp::Mul && packed_index(
                            gates[i],
                            ib,
                        ) == k {
                        1int
                    } else {
                        0int
                    },
            decreases gates.len() - j,
        {
            let gate = layer_vec[j];
            let ghost po = pow2(ob) as int;
            proof {
                assert(gate == gates[j as int]);
                assert(gate.output_index < po && gate.left_index < pw && gate.right_index < pw);
                assert((gate.output_index * pw + gate.left_index) < po * pw) by (nonlinear_arith)
                    requires
                        gate.output_index < po,
                        gate.left_index < pw,
                ;
                assert((gate.output_index * pw + gate.left_index) * pw + gate.right_index < po * (
                pw * pw)) by (nonlinear_arith)
                    requires
                        gate.output_index * pw + gate.left_index < po * pw,
                        gate.right_index < pw,
                ;
                assert(0 <= gate.output_index * pw) by (nonlinear_arith)
                    requires
                        pw > 0,
                ;
                assert(gate.output_index * pw <= (gate.output_index * pw + gate.left_index) * pw)
                    by (nonlinear_arith)
                    requires
                        pw > 0,
                ;
                assert((gate.output_index * pw + gate.left_index) * pw + gate.right_index
                    < vector_size);
                assert(po * pw <= po * (pw * pw)) by (nonlinear_arith)
                    requires
                        pw >= 1,
                        po >= 0,
                ;
            }
            let high = gate.output_index * pw + gate.left_index;
            assert(high * pw <= high * pw + gate.right_index);
            let res = high * pw + gate.right_index;
            assert(res == packed_index(gate, ib));
            let ghost add_before = add_vec@;
            let ghost mul_before = mul_vec@;
            match gate.op {
                GateOp::Add => {
                    add_vec.set(res, Fe::one());
                },
                GateOp::Mul => {
                    mul_vec.set(res, Fe::one());
                },
            }
            proof {
                assert forall|k: int| 0 <= k < vector_size implies (#[trigger] add_vec@[k])@ == if exists|i: int|
                    0 <= i < j + 1 && (#[trigger] gates[i]).op == GateOp::Add && packed_index(gates[i], ib) == k {
                    1int
                } else {
                    0int
                } by {
                    if gate.op == GateOp::Add && k == res {
                        assert(gates[j as int].op == GateOp::Add && packed_index(gates[j as int], ib) == k);
                    } else {
                        assert(add_vec@[k] == add_before[k]);
                    }
                }
                assert forall|k: int| 0 <= k < vector_size implies (#[trigger] mul_vec@[k])@ == if exists|i: int|
                    0 <= i < j + 1 && (#[trigger] gates[i]).op == GateOp::Mul && packed_index(gates[i], ib) == k {
                    1int
                } else {
                    0int
                } by {
                    if gate.op == GateOp::Mul && k == res {
                        assert(gates[j as int].op == GateOp::Mul && packed_index(gates[j as int], ib) == k);
                    } else {
                        assert(mul_vec@[k] == mul_before[k]);
                    }
                }
            }
            j = j + 1;
        }
        proof {
            assert(values(add_vec@) =~= wiring_table(gates, GateOp::Add));
            assert(values(mul_vec@) =~= wiring_table(gates, GateOp::Mul));
        }
        vec![add_vec, mul_vec]
    }

    /// The values layer `layer_id` computed in the last evaluation.
    pub fn get_w_poly(&mut self, layer_id: usize) -> (r: Vec<Fe>)
        requires
            layer_id < old(self).w_polys@.len(),
        ensures
            *final(self) == *old(self),
            r@ == old(self).w_polys@[layer_id as int]@,
    {
        self.w_polys[layer_id].clone()
    }
}

} // verus!
