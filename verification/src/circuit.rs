//! The inputs and outputs of a step circuit as plain values: named groups
//! of field elements, the witness of one step, and how the outputs of one
//! step are shaped into the inputs of the next. The elements themselves are
//! opaque here: they are only copied.

use vstd::prelude::*;

verus! {

/// The values of all groups, one group after the other.
pub open spec fn flat<F>(input: Seq<(String, Vec<F>)>) -> Seq<F>
    decreases input.len(),
{
    if input.len() == 0 {
        Seq::empty()
    } else {
        flat(input.drop_last()) + input.last().1@
    }
}

/// Two inputs have the same groups: the same names with the same values,
/// in the same order.
pub open spec fn same_groups<F>(a: Seq<(String, Vec<F>)>, b: Seq<(String, Vec<F>)>) -> bool {
    &&& a.len() == b.len()
    &&& forall|i: int| 0 <= i < a.len() ==> (#[trigger] a[i]).0@ == b[i].0@ && a[i].1@ == b[i].1@
}

/// The first groups of an input hold no more values than all of them.
pub proof fn lemma_flat_take<F>(input: Seq<(String, Vec<F>)>, i: int)
    requires
        0 <= i < input.len(),
    ensures
        flat(input.take(i + 1)) == flat(input.take(i)) + input[i].1@,
        flat(input.take(i + 1)).len() <= flat(input).len(),
    decreases input.len() - i,
{
    assert(input.take(i + 1).drop_last() =~= input.take(i));
    if i + 1 < input.len() {
        lemma_flat_take(input, i + 1);
    } else {
        assert(input.take(i + 1) =~= input);
    }
}

/// Inputs with the same groups hold the same values.
pub proof fn lemma_same_groups_flat<F>(a: Seq<(String, Vec<F>)>, b: Seq<(String, Vec<F>)>)
    requires
        same_groups(a, b),
    ensures
        flat(a) == flat(b),
    decreases a.len(),
{
    if a.len() > 0 {
        assert(a.last().1@ == b.last().1@) by {
            assert(a[a.len() - 1].1@ == b[a.len() - 1].1@);
        }
        assert forall|i: int| 0 <= i < a.drop_last().len() implies (#[trigger] a.drop_last()[i]).0@
            == b.drop_last()[i].0@ && a.drop_last()[i].1@ == b.drop_last()[i].1@ by {
            assert(a[i].0@ == b[i].0@);
        }
        lemma_same_groups_flat(a.drop_last(), b.drop_last());
    }
}

/// A copy of `values`.
fn copy_values<F: Copy>(values: &Vec<F>) -> (r: Vec<F>)
    ensures
        r@ == values@,
{
    let mut out: Vec<F> = Vec::new();
    let mut j: usize = 0;
    while j < values.len()
        invariant
            0 <= j <= values.len(),
            out@ == values@.take(j as int),
        decreases values.len() - j,
    {
        out.push(values[j]);
        j += 1;
        assert(out@ =~= values@.take(j as int));
    }
    assert(values@.take(j as int) =~= values@);
    out
}

/// Puts a copy of each group of `groups` at the end of `out`.
fn append_groups<F: Copy>(out: &mut Vec<(String, Vec<F>)>, groups: &Vec<(String, Vec<F>)>)
    ensures
        same_groups(final(out)@, old(out)@ + groups@),
{
    let mut i: usize = 0;
    while i < groups.len()
        invariant
            0 <= i <= groups.len(),
            same_groups(out@, old(out)@ + groups@.take(i as int)),
        decreases groups.len() - i,
    {
        let ghost before = out@;
        out.push((groups[i].0.clone(), copy_values(&groups[i].1)));
        proof {
            let want = old(out)@ + groups@.take(i + 1);
            let had = old(out)@ + groups@.take(i as int);
            assert forall|k: int| 0 <= k < out@.len() implies (#[trigger] out@[k]).0@ == want[k].0@
                && out@[k].1@ == want[k].1@ by {
                if k < before.len() {
                    assert(out@[k] == before[k]);
                    assert(before[k].0@ == had[k].0@ && before[k].1@ == had[k].1@);
                    assert(had[k] == want[k]);
                }
            }
        }
        i += 1;
    }
    assert(groups@.take(i as int) =~= groups@);
}

/// The values of all groups of a witness input, one group after the other.
pub fn flat_input<F: Copy>(input: Vec<(String, Vec<F>)>) -> (r: Vec<F>)
    ensures
        r@ == flat(input@),
{
    let mut out: Vec<F> = Vec::new();
    let mut i: usize = 0;
    assert(input@.take(0) =~= Seq::<(String, Vec<F>)>::empty());
    while i < input.len()
        invariant
            0 <= i <= input.len(),
            out@ == flat(input@.take(i as int)),
        decreases input.len() - i,
    {
        let group = &input[i].1;
        let mut j: usize = 0;
        while j < group.len()
            invariant
                0 <= j <= group.len(),
                0 <= i < input.len(),
                group == input@[i as int].1,
                out@ == flat(input@.take(i as int)) + group@.take(j as int),
            decreases group.len() - j,
        {
            out.push(group[j]);
            j += 1;
            assert(out@ =~= flat(input@.take(i as int)) + group@.take(j as int));
        }
        proof {
            assert(group@.take(j as int) =~= group@);
            lemma_flat_take(input@, i as int);
        }
        i += 1;
    }
    assert(input@.take(i as int) =~= input@);
    out
}

/// How many values an input holds, all groups together.
pub fn input_len<F>(input: &Vec<(String, Vec<F>)>) -> (r: usize)
    requires
        flat(input@).len() <= usize::MAX,
    ensures
        r == flat(input@).len(),
{
    let mut total: usize = 0;
    let mut i: usize = 0;
    assert(input@.take(0) =~= Seq::<(String, Vec<F>)>::empty());
    while i < input.len()
        invariant
            0 <= i <= input.len(),
            total == flat(input@.take(i as int)).len(),
            flat(input@).len() <= usize::MAX,
        decreases input.len() - i,
    {
        proof {
            lemma_flat_take(input@, i as int);
        }
        total = total + input[i].1.len();
        i += 1;
    }
    assert(input@.take(i as int) =~= input@);
    total
}

/// One step of a circuit: how many public values it has (a leading one,
/// then the outputs, then the inputs), how many private ones, and the
/// witness that holds them all in that order.
pub struct Circuit<F> {
    num_inputs: usize,
    num_aux: usize,
    witness: Vec<F>,
}

impl<F> Circuit<F> {
    /// The number of public values, the leading one counted.
    pub closed spec fn num_inputs_of(&self) -> usize {
        self.num_inputs
    }

    /// The number of private values.
    pub closed spec fn num_aux_of(&self) -> usize {
        self.num_aux
    }

    /// The witness.
    pub closed spec fn witness_of(&self) -> Seq<F> {
        self.witness@
    }

    /// The circuit step with this shape and this witness.
    pub fn new(num_inputs: usize, num_aux: usize, witness: Vec<F>) -> (c: Circuit<F>)
        ensures
            c.num_inputs_of() == num_inputs,
            c.num_aux_of() == num_aux,
            c.witness_of() == witness@,
    {
        Circuit { num_inputs, num_aux, witness }
    }

    /// The number of public values, the leading one counted.
    pub fn num_inputs(&self) -> (r: usize)
        ensures
            r == self.num_inputs_of(),
    {
        self.num_inputs
    }

    /// The number of private values.
    pub fn num_aux(&self) -> (r: usize)
        ensures
            r == self.num_aux_of(),
    {
        self.num_aux
    }

    /// The witness.
    pub fn witness(&self) -> (r: &Vec<F>)
        ensures
            r@ == self.witness_of(),
    {
        &self.witness
    }

    /// How many values go into a step and come out of it: half of the
    /// public values, the leading one left out.
    pub fn arity(&self) -> (r: usize)
        requires
            self.num_inputs_of() >= 1,
        ensures
            r == (self.num_inputs_of() - 1) / 2,
    {
        (self.num_inputs - 1) / 2
    }
}

impl<F: Copy> Circuit<F> {
    /// The public outputs of the step: the witness after its leading value,
    /// as far as the public values that are not among the `input_size`
    /// inputs reach.
    pub fn get_public_outputs(&self, input_size: usize) -> (r: Vec<F>)
        requires
            input_size < self.num_inputs_of(),
            self.num_inputs_of() - input_size <= self.witness_of().len(),
        ensures
            r@ == self.witness_of().subrange(1, self.num_inputs_of() - input_size),
    {
        let output_count: usize = self.num_inputs - input_size - 1;
        let mut out: Vec<F> = Vec::new();
        let mut i: usize = 0;
        while i < output_count
            invariant
                0 <= i <= output_count,
                output_count + 1 <= self.witness@.len(),
                out@ == self.witness@.subrange(1, 1 + i),
            decreases output_count - i,
        {
            out.push(self.witness[i + 1]);
            i += 1;
            assert(out@ =~= self.witness@.subrange(1, 1 + i));
        }
        out
    }
}

/// Shapes the outputs of a step like `input`: each group keeps its name
/// and its size and takes the next values of `output`, in order.
pub fn reshape<F: Copy>(input: &Vec<(String, Vec<F>)>, output: &Vec<F>) -> (r: Vec<
    (String, Vec<F>),
>)
    requires
        flat(input@).len() <= output@.len(),
    ensures
        r@.len() == input@.len(),
        forall|i: int|
            0 <= i < r@.len() ==> (#[trigger] r@[i]).0@ == input@[i].0@ && r@[i].1@.len()
                == input@[i].1@.len(),
        flat(r@) == output@.take(flat(input@).len() as int),
{
    let mut ret: Vec<(String, Vec<F>)> = Vec::new();
    let mut taken: usize = 0;
    let mut i: usize = 0;
    let limit: usize = output.len();
    assert(input@.take(0) =~= Seq::<(String, Vec<F>)>::empty());
    assert(output@.take(0) =~= Seq::<F>::empty());
    while i < input.len()
        invariant
            0 <= i <= input.len(),
            limit == output@.len(),
            flat(input@).len() <= output@.len(),
            taken == flat(input@.take(i as int)).len(),
            taken <= output@.len(),
            ret@.len() == i,
            forall|k: int|
                0 <= k < i ==> (#[trigger] ret@[k]).0@ == input@[k].0@ && ret@[k].1@.len()
                    == input@[k].1@.len(),
            flat(ret@) == output@.take(taken as int),
        decreases input.len() - i,
    {
        proof {
            lemma_flat_take(input@, i as int);
        }
        let size = input[i].1.len();
        let mut group: Vec<F> = Vec::new();
        let mut j: usize = 0;
        while j < size
            invariant
                0 <= j <= size,
                limit == output@.len(),
                taken + size <= output@.len(),
                group@ == output@.subrange(taken as int, taken + j),
            decreases size - j,
        {
            group.push(output[taken + j]);
            j += 1;
            assert(group@ =~= output@.subrange(taken as int, taken + j));
        }
        let ghost before = ret@;
        ret.push((input[i].0.clone(), group));
        proof {
            assert(ret@.drop_last() =~= before);
            assert(flat(ret@) =~= output@.take(taken + size));
        }
        taken = taken + size;
        i += 1;
    }
    assert(input@.take(i as int) =~= input@);
    ret
}

/// What the first groups of a round's input are: the outputs of the round
/// before, shaped as inputs, or the public input where there are none yet.
pub open spec fn round_base<F>(
    public_input: Seq<(String, Vec<F>)>,
    latest_output: Seq<(String, Vec<F>)>,
) -> Seq<(String, Vec<F>)> {
    if latest_output.len() == 0 {
        public_input
    } else {
        latest_output
    }
}

/// The private groups of round `round`, or none where none were given for
/// it.
pub open spec fn round_private<F>(
    private_inputs: Seq<Vec<(String, Vec<F>)>>,
    round: int,
) -> Seq<(String, Vec<F>)> {
    if 0 <= round < private_inputs.len() {
        private_inputs[round]@
    } else {
        Seq::empty()
    }
}

/// The input of round `round` of a recursion: the outputs of the round
/// before, or the public input in the first round, followed by the private
/// input of this round where there is one.
pub fn round_input<F: Copy>(
    public_input: &Vec<(String, Vec<F>)>,
    latest_output: &Vec<(String, Vec<F>)>,
    private_inputs: &Vec<Vec<(String, Vec<F>)>>,
    round: usize,
) -> (r: Vec<(String, Vec<F>)>)
    ensures
        same_groups(
            r@,
            round_base(public_input@, latest_output@) + round_private(
                private_inputs@,
                round as int,
            ),
        ),
{
    let mut input: Vec<(String, Vec<F>)> = Vec::new();
    if latest_output.len() == 0 {
        append_groups(&mut input, public_input);
    } else {
        append_groups(&mut input, latest_output);
    }
    let ghost base = input@;
    proof {
        assert(Seq::<(String, Vec<F>)>::empty() + round_base(public_input@, latest_output@)
            =~= round_base(public_input@, latest_output@));
    }
    if round < private_inputs.len() {
        append_groups(&mut input, &private_inputs[round]);
        proof {
            let extra = private_inputs@[round as int]@;
            let want = round_base(public_input@, latest_output@) + extra;
            assert forall|k: int| 0 <= k < input@.len() implies (#[trigger] input@[k]).0@
                == want[k].0@ && input@[k].1@ == want[k].1@ by {
                assert((base + extra)[k].0@ == want[k].0@ && (base + extra)[k].1@ == want[k].1@) by {
                    if k < base.len() {
                        assert(base[k].0@ == round_base(public_input@, latest_output@)[k].0@);
                    }
                }
            }
        }
    } else {
        assert(round_base(public_input@, latest_output@) + Seq::<(String, Vec<F>)>::empty()
            =~= round_base(public_input@, latest_output@));
    }
    input
}

} // verus!
