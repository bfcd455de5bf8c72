//! Ensemble models: a pipeline of steps, each running another model on
//! tensors taken from a shared name table and writing its results back.
//! Tensors are referred to by slot numbers; what a slot holds is the caller's.
use vstd::prelude::*;

use crate::config_types::{
    kv_views, step_views, tensor_views, EnsembleStep, EnsembleStepView, KeyValue, KeyValueView,
    ModelConfig, ModelConfigView, TensorDef, TensorDefView,
};
use crate::text::{chars_of, same_chars, string_views};

verus! {

/// Why an ensemble could not be set up or run.
#[derive(Debug, Clone, Copy, PartialEq, Eq, Structural)]
pub enum EnsembleError {
    /// The configuration has no `ensemble_scheduling` section.
    MissingScheduling,
    /// The scheduling section lists no step.
    NoSteps,
    /// Step `step` needs, for its input map entry `input`, a tensor that no
    /// one has produced.
    MissingTensor { step: usize, input: usize },
    /// The model of step `step` is not loaded.
    ModelNotFound { step: usize },
    /// The ensemble output `output` was never produced.
    MissingOutput { output: usize },
}

/// The names of a list of tensor declarations.
pub open spec fn tensor_names(ts: Seq<TensorDefView>) -> Seq<Seq<char>> {
    ts.map_values(|t: TensorDefView| t.name)
}


/// What an ensemble runs: its steps, and the names of its inputs and outputs.
pub struct EnsemblePlan {
    pub steps: Vec<EnsembleStep>,
    pub inputs: Vec<String>,
    pub outputs: Vec<String>,
}

pub struct EnsemblePlanView {
    pub steps: Seq<EnsembleStepView>,
    pub inputs: Seq<Seq<char>>,
    pub outputs: Seq<Seq<char>>,
}

impl View for EnsemblePlan {
    type V = EnsemblePlanView;

    open spec fn view(&self) -> EnsemblePlanView {
        EnsemblePlanView {
            steps: step_views(self.steps@),
            inputs: string_views(self.inputs@),
            outputs: string_views(self.outputs@),
        }
    }
}

/// The plan an ensemble configuration describes: it needs a scheduling
/// section with at least one step.
pub open spec fn ensemble_plan(c: ModelConfigView) -> Result<EnsemblePlanView, EnsembleError> {
    match c.ensemble_scheduling {
        None => Err(EnsembleError::MissingScheduling),
        Some(s) => if s.steps.len() == 0 {
            Err(EnsembleError::NoSteps)
        } else {
            Ok(
                EnsemblePlanView {
                    steps: s.steps,
                    inputs: tensor_names(c.inputs),
                    outputs: tensor_names(c.outputs),
                },
            )
        },
    }
}

fn copy_kvs(v: &Vec<KeyValue>) -> (r: Vec<KeyValue>)
    ensures
        kv_views(r@) == kv_views(v@),
{
    let mut r: Vec<KeyValue> = Vec::new();
    let mut i: usize = 0;
    while i < v.len()
        invariant
            i <= v@.len(),
            r@.len() == i,
            kv_views(r@) == kv_views(v@).take(i as int),
        decreases v.len() - i,
    {
        let ghost prev = r@;
        r.push(KeyValue { key: v[i].key.clone(), value: v[i].value.clone() });
        assert forall|j: int| 0 <= j < i + 1 implies #[trigger] kv_views(r@)[j] == kv_views(v@)[j] by {
            if j < i {
                assert(r@[j] == prev[j]);
                assert(kv_views(prev)[j] == kv_views(v@).take(i as int)[j]);
            }
        }
        assert(kv_views(r@) =~= kv_views(v@).take(i + 1));
        i = i + 1;
    }
    assert(kv_views(v@).take(v@.len() as int) =~= kv_views(v@));
    r
}

fn copy_steps(v: &Vec<EnsembleStep>) -> (r: Vec<EnsembleStep>)
    ensures
        step_views(r@) == step_views(v@),
{
    let mut r: Vec<EnsembleStep> = Vec::new();
    let mut i: usize = 0;
    while i < v.len()
        invariant
            i <= v@.len(),
            r@.len() == i,
            step_views(r@) == step_views(v@).take(i as int),
        decreases v.len() - i,
    {
        let s = &v[i];
        let ghost prev = r@;
        r.push(
            EnsembleStep {
                model_name: s.model_name.clone(),
                model_version: s.model_version,
                input_map: copy_kvs(&s.input_map),
                output_map: copy_kvs(&s.output_map),
            },
        );
        assert forall|j: int| 0 <= j < i + 1 implies #[trigger] step_views(r@)[j] == step_views(v@)[j] by {
            if j < i {
                assert(r@[j] == prev[j]);
                assert(step_views(prev)[j] == step_views(v@).take(i as int)[j]);
            }
        }
        assert(step_views(r@) =~= step_views(v@).take(i + 1));
        i = i + 1;
    }
    assert(step_views(v@).take(v@.len() as int) =~= step_views(v@));
    r
}

fn names_of(ts: &Vec<TensorDef>) -> (r: Vec<String>)
    ensures
        string_views(r@) == tensor_names(tensor_views(ts@)),
{
    let mut r: Vec<String> = Vec::new();
    let mut i: usize = 0;
    while i < ts.len()
        invariant
            i <= ts@.len(),
            r@.len() == i,
            string_views(r@) == tensor_names(tensor_views(ts@)).take(i as int),
        decreases ts.len() - i,
    {
        let ghost prev = r@;
        r.push(ts[i].name.clone());
        assert forall|j: int| 0 <= j < i + 1 implies #[trigger] string_views(r@)[j] == tensor_names(
            tensor_views(ts@),
        )[j] by {
            if j < i {
                assert(r@[j] == prev[j]);
                assert(string_views(prev)[j] == tensor_names(tensor_views(ts@)).take(i as int)[j]);
            }
        }
        assert(string_views(r@) =~= tensor_names(tensor_views(ts@)).take(i + 1));
        i = i + 1;
    }
    assert(tensor_names(tensor_views(ts@)).take(ts@.len() as int) =~= tensor_names(
        tensor_views(ts@),
    ));
    r
}

/// A plan keeps what the configuration declares: its steps as written, and
/// every declared input and output name, in order; it exists exactly when the
/// configuration has a scheduling section with at least one step.
pub proof fn law_plan_keeps_declarations(c: ModelConfigView)
    ensures
        ensemble_plan(c) is Ok <==> (c.ensemble_scheduling matches Some(s) && s.steps.len() > 0),
        ensemble_plan(c) matches Ok(p) ==> {
            &&& c.ensemble_scheduling matches Some(s) && p.steps == s.steps
            &&& p.inputs.len() == c.inputs.len()
            &&& forall|i: int| 0 <= i < c.inputs.len() ==> #[trigger] p.inputs[i] == c.inputs[i].name
            &&& p.outputs.len() == c.outputs.len()
            &&& forall|i: int| 0 <= i < c.outputs.len() ==> #[trigger] p.outputs[i] == c.outputs[i].name
        },
{
}

/// The plan of an ensemble configuration, or why it has none.
pub fn plan_ensemble(config: &ModelConfig) -> (r: Result<EnsemblePlan, EnsembleError>)
    ensures
        r is Ok <==> ensemble_plan(config@) is Ok,
        r matches Ok(p) ==> ensemble_plan(config@) == Ok::<EnsemblePlanView, EnsembleError>(p@),
        r matches Err(e) ==> ensemble_plan(config@) == Err::<EnsemblePlanView, EnsembleError>(e),
        r matches Ok(p) ==> p.inputs@.len() == config.inputs@.len() && forall|i: int|
            0 <= i < config.inputs@.len() ==> (#[trigger] p.inputs@[i])@ == config.inputs@[i].name@,
        r matches Ok(p) ==> p.outputs@.len() == config.outputs@.len() && forall|i: int|
            0 <= i < config.outputs@.len() ==> (#[trigger] p.outputs@[i])@ == config.outputs@[i].name@,
{
    match &config.ensemble_scheduling {
        None => Err(EnsembleError::MissingScheduling),
        Some(s) => {
            if s.steps.len() == 0 {
                Err(EnsembleError::NoSteps)
            } else {
                let p = EnsemblePlan {
                    steps: copy_steps(&s.steps),
                    inputs: names_of(&config.inputs),
                    outputs: names_of(&config.outputs),
                };
                proof {
                    assert(string_views(p.inputs@).len() == p.inputs@.len());
                    assert(string_views(p.outputs@).len() == p.outputs@.len());
                    assert forall|i: int| 0 <= i < config.inputs@.len() implies (
                    #[trigger] p.inputs@[i])@ == config.inputs@[i].name@ by {
                        assert(string_views(p.inputs@)[i] == p.inputs@[i]@);
                        assert(tensor_names(tensor_views(config.inputs@))[i] == config.inputs@[i].name@);
                    }
                    assert forall|i: int| 0 <= i < config.outputs@.len() implies (
                    #[trigger] p.outputs@[i])@ == config.outputs@[i].name@ by {
                        assert(string_views(p.outputs@)[i] == p.outputs@[i]@);
                        assert(tensor_names(tensor_views(config.outputs@))[i] == config.outputs@[i].name@);
                    }
                }
                Ok(p)
            }
        },
    }
}

/// The table that results from binding each entry in order, a later entry
/// for a name replacing an earlier one.
pub open spec fn bound(es: Seq<(String, usize)>) -> Map<Seq<char>, usize>
    decreases es.len(),
{
    if es.len() == 0 {
        Map::empty()
    } else {
        bound(es.drop_last()).insert(es.last().0@, es.last().1)
    }
}

proof fn lemma_bound_last(es: Seq<(String, usize)>, k: Seq<char>, j: int)
    requires
        0 <= j < es.len(),
        es[j].0@ == k,
        forall|l: int| j < l < es.len() ==> es[l].0@ != k,
    ensures
        bound(es).contains_key(k),
        bound(es)[k] == es[j].1,
    decreases es.len(),
{
    if j < es.len() - 1 {
        lemma_bound_last(es.drop_last(), k, j);
    }
}

proof fn lemma_bound_absent(es: Seq<(String, usize)>, k: Seq<char>)
    requires
        forall|l: int| 0 <= l < es.len() ==> es[l].0@ != k,
    ensures
        !bound(es).contains_key(k),
    decreases es.len(),
{
    if es.len() > 0 {
        lemma_bound_absent(es.drop_last(), k);
    }
}

/// The name table of a running ensemble: which slot holds the tensor of each
/// name.
pub struct Bindings {
    entries: Vec<(String, usize)>,
}

impl Bindings {
    pub closed spec fn view(&self) -> Map<Seq<char>, usize> {
        bound(self.entries@)
    }

    /// An empty table.
    pub fn new() -> (b: Self)
        ensures
            b@ == Map::<Seq<char>, usize>::empty(),
    {
        Bindings { entries: Vec::new() }
    }

    /// Binds `name` to `slot`, replacing what it was bound to.
    pub fn bind(&mut self, name: &str, slot: usize)
        ensures
            final(self)@ == old(self)@.insert(name@, slot),
    {
        let ghost before = self.entries@;
        self.entries.push((name.to_owned(), slot));
        assert(self.entries@.drop_last() =~= before);
    }

    /// The slot `name` is bound to, if any.
    pub fn lookup(&self, name: &str) -> (r: Option<usize>)
        ensures
            r == if self@.contains_key(name@) {
                Some(self@[name@])
            } else {
                None::<usize>
            },
    {
        let target = chars_of(name);
        let mut i: usize = self.entries.len();
        while i > 0
            invariant
                i <= self.entries@.len(),
                target@ == name@,
                forall|l: int| i <= l < self.entries@.len() ==> self.entries@[l].0@ != name@,
            decreases i,
        {
            let e = &self.entries[i - 1];
            let ec = chars_of(e.0.as_str());
            if same_chars(ec.as_slice(), target.as_slice()) {
                proof {
                    lemma_bound_last(self.entries@, name@, i - 1);
                }
                return Some(e.1);
            }
            i = i - 1;
        }
        proof {
            lemma_bound_absent(self.entries@, name@);
        }
        None
    }
}

/// A name reads back the slot it was last bound to, and binding one name
/// leaves every other name as it was.
pub proof fn law_bind_then_lookup(m: Map<Seq<char>, usize>, name: Seq<char>, slot: usize, other: Seq<char>)
    requires
        other != name,
    ensures
        m.insert(name, slot).contains_key(name),
        m.insert(name, slot)[name] == slot,
        m.insert(name, slot).contains_key(other) == m.contains_key(other),
        m.contains_key(other) ==> m.insert(name, slot)[other] == m[other],
{
}

/// The table after binding `names[i]` to slot `first + i`, in order.
pub open spec fn bind_all(m: Map<Seq<char>, usize>, names: Seq<Seq<char>>, first: int) -> Map<
    Seq<char>,
    usize,
>
    decreases names.len(),
{
    if names.len() == 0 {
        m
    } else {
        bind_all(m, names.drop_last(), first).insert(
            names.last(),
            (first + names.len() - 1) as usize,
        )
    }
}

/// The table of a request's inputs: the `i`-th input in slot `i`; of two
/// inputs with one name, the later one counts.
pub fn bind_inputs(names: &Vec<String>) -> (b: Bindings)
    ensures
        b@ == bind_all(Map::empty(), string_views(names@), 0),
{
    let mut b = Bindings::new();
    let mut i: usize = 0;
    while i < names.len()
        invariant
            i <= names@.len(),
            b@ == bind_all(Map::empty(), string_views(names@).take(i as int), 0),
        decreases names.len() - i,
    {
        b.bind(names[i].as_str(), i);
        assert(string_views(names@).take(i + 1).drop_last() =~= string_views(names@).take(i as int));
        i = i + 1;
    }
    assert(string_views(names@).take(names@.len() as int) =~= string_views(names@));
    b
}

/// Every input of a step names a bound tensor.
pub open spec fn feed_ready(b: Map<Seq<char>, usize>, input_map: Seq<KeyValueView>) -> bool {
    forall|i: int| 0 <= i < input_map.len() ==> b.contains_key(#[trigger] input_map[i].value)
}

/// The inputs of step `step`: for each entry of its input map, the entry's key
/// and the slot its value is bound to. Fails on the first entry whose value
/// is unbound.
pub fn step_inputs(b: &Bindings, input_map: &Vec<KeyValue>, step: usize) -> (r: Result<
    Vec<(String, usize)>,
    EnsembleError,
>)
    ensures
        r is Ok <==> feed_ready(b@, kv_views(input_map@)),
        r matches Ok(v) ==> v@.len() == input_map@.len() && forall|i: int|
            0 <= i < v@.len() ==> (#[trigger] v@[i]).0@ == input_map@[i].key@ && v@[i].1
                == b@[input_map@[i].value@],
        r matches Err(e) ==> e matches EnsembleError::MissingTensor { step: s, input: k } && s
            == step && k < input_map@.len() && !b@.contains_key(input_map@[k as int].value@)
            && forall|j: int| 0 <= j < k ==> b@.contains_key(#[trigger] input_map@[j].value@),
{
    let mut v: Vec<(String, usize)> = Vec::new();
    let mut i: usize = 0;
    while i < input_map.len()
        invariant
            i <= input_map@.len(),
            v@.len() == i,
            forall|j: int| 0 <= j < i ==> b@.contains_key(#[trigger] input_map@[j].value@),
            forall|j: int|
                0 <= j < i ==> (#[trigger] v@[j]).0@ == input_map@[j].key@ && v@[j].1
                    == b@[input_map@[j].value@],
        decreases input_map.len() - i,
    {
        let kv = &input_map[i];
        match b.lookup(kv.value.as_str()) {
            Some(slot) => {
                v.push((kv.key.clone(), slot));
            },
            None => {
                proof {
                    assert(kv_views(input_map@)[i as int].value == input_map@[i as int].value@);
                }
                return Err(EnsembleError::MissingTensor { step, input: i });
            },
        }
        i = i + 1;
    }
    proof {
        assert forall|j: int| 0 <= j < kv_views(input_map@).len() implies b@.contains_key(
            #[trigger] kv_views(input_map@)[j].value,
        ) by {
            assert(kv_views(input_map@)[j].value == input_map@[j].value@);
        }
    }
    Ok(v)
}

/// Where an output named `name` goes: the value of the first entry of the
/// output map whose key is `name`.
pub open spec fn route_of(output_map: Seq<KeyValueView>, name: Seq<char>) -> Option<Seq<char>>
    decreases output_map.len(),
{
    if output_map.len() == 0 {
        None
    } else if output_map[0].key == name {
        Some(output_map[0].value)
    } else {
        route_of(output_map.drop_first(), name)
    }
}

/// The table after a step produced `produced` (each a name and the slot it
/// was stored in): each output the map routes is bound, in order.
pub open spec fn outputs_bound(
    m: Map<Seq<char>, usize>,
    output_map: Seq<KeyValueView>,
    produced: Seq<(Seq<char>, usize)>,
) -> Map<Seq<char>, usize>
    decreases produced.len(),
{
    if produced.len() == 0 {
        m
    } else {
        let prev = outputs_bound(m, output_map, produced.drop_last());
        match route_of(output_map, produced.last().0) {
            Some(v) => prev.insert(v, produced.last().1),
            None => prev,
        }
    }
}

/// The views of a list of (name, slot) pairs.
pub open spec fn pair_views(v: Seq<(String, usize)>) -> Seq<(Seq<char>, usize)> {
    v.map_values(|p: (String, usize)| (p.0@, p.1))
}

fn find_route(output_map: &Vec<KeyValue>, name: &str) -> (r: Option<usize>)
    ensures
        match route_of(kv_views(output_map@), name@) {
            Some(v) => r matches Some(i) && i < output_map@.len() && output_map@[i as int].value@ == v,
            None => r is None,
        },
{
    let target = chars_of(name);
    let mut i: usize = 0;
    let ghost all = kv_views(output_map@);
    assert(all.skip(0) =~= all);
    while i < output_map.len()
        invariant
            i <= output_map@.len(),
            target@ == name@,
            all == kv_views(output_map@),
            route_of(all, name@) == route_of(all.skip(i as int), name@),
        decreases output_map.len() - i,
    {
        let kc = chars_of(output_map[i].key.as_str());
        assert(all.skip(i as int)[0] == all[i as int]);
        if same_chars(kc.as_slice(), target.as_slice()) {
            return Some(i);
        }
        assert(all.skip(i as int).drop_first() =~= all.skip(i + 1));
        i = i + 1;
    }
    None
}

/// Binds the outputs a step produced, as its output map routes them.
pub fn bind_outputs(b: &mut Bindings, output_map: &Vec<KeyValue>, produced: &Vec<(String, usize)>)
    ensures
        final(b)@ == outputs_bound(old(b)@, kv_views(output_map@), pair_views(produced@)),
{
    let mut i: usize = 0;
    while i < produced.len()
        invariant
            i <= produced@.len(),
            b@ == outputs_bound(old(b)@, kv_views(output_map@), pair_views(produced@).take(i as int)),
        decreases produced.len() - i,
    {
        let p = &produced[i];
        assert(pair_views(produced@).take(i + 1).drop_last() =~= pair_views(produced@).take(i as int));
        match find_route(output_map, p.0.as_str()) {
            Some(k) => {
                b.bind(output_map[k].value.as_str(), p.1);
            },
            None => {},
        }
        i = i + 1;
    }
    assert(pair_views(produced@).take(produced@.len() as int) =~= pair_views(produced@));
}

/// The slots of the ensemble's outputs, in order; fails on the first output
/// that was never bound.
pub fn collect_outputs(b: &Bindings, outputs: &Vec<String>) -> (r: Result<Vec<usize>, EnsembleError>)
    ensures
        r is Ok <==> forall|i: int| 0 <= i < outputs@.len() ==> b@.contains_key(#[trigger] outputs@[i]@),
        r matches Ok(v) ==> v@.len() == outputs@.len() && forall|i: int|
            0 <= i < v@.len() ==> #[trigger] v@[i] == b@[outputs@[i]@],
        r matches Err(e) ==> e matches EnsembleError::MissingOutput { output: k } && k
            < outputs@.len() && !b@.contains_key(outputs@[k as int]@) && forall|j: int|
            0 <= j < k ==> b@.contains_key(#[trigger] outputs@[j]@),
{
    let mut v: Vec<usize> = Vec::new();
    let mut i: usize = 0;
    while i < outputs.len()
        invariant
            i <= outputs@.len(),
            v@.len() == i,
            forall|j: int| 0 <= j < i ==> b@.contains_key(#[trigger] outputs@[j]@),
            forall|j: int| 0 <= j < i ==> #[trigger] v@[j] == b@[outputs@[j]@],
        decreases outputs.len() - i,
    {
        match b.lookup(outputs[i].as_str()) {
            Some(slot) => v.push(slot),
            None => {
                return Err(EnsembleError::MissingOutput { output: i });
            },
        }
        i = i + 1;
    }
    Ok(v)
}


/// The first entry of `im` whose value `m` does not bind (`im.len()` when
/// there is none).
pub open spec fn first_unfed(m: Map<Seq<char>, usize>, im: Seq<KeyValueView>) -> int
    decreases im.len(),
{
    if im.len() == 0 {
        0
    } else if !m.contains_key(im[0].value) {
        0
    } else {
        1 + first_unfed(m, im.drop_first())
    }
}

/// The first of `names` that `m` does not bind (`names.len()` when there is
/// none).
pub open spec fn first_unbound(m: Map<Seq<char>, usize>, names: Seq<Seq<char>>) -> int
    decreases names.len(),
{
    if names.len() == 0 {
        0
    } else if !m.contains_key(names[0]) {
        0
    } else {
        1 + first_unbound(m, names.drop_first())
    }
}

proof fn lemma_first_unfed(m: Map<Seq<char>, usize>, im: Seq<KeyValueView>, k: int)
    requires
        0 <= k < im.len(),
        !m.contains_key(im[k].value),
        forall|j: int| 0 <= j < k ==> m.contains_key(#[trigger] im[j].value),
    ensures
        first_unfed(m, im) == k,
    decreases im.len(),
{
    if k > 0 {
        assert(m.contains_key(im[0].value));
        assert forall|j: int| 0 <= j < k - 1 implies m.contains_key(#[trigger] im.drop_first()[j].value) by {
            assert(im.drop_first()[j] == im[j + 1]);
        }
        lemma_first_unfed(m, im.drop_first(), k - 1);
    }
}

proof fn lemma_first_unbound(m: Map<Seq<char>, usize>, names: Seq<Seq<char>>, k: int)
    requires
        0 <= k < names.len(),
        !m.contains_key(names[k]),
        forall|j: int| 0 <= j < k ==> m.contains_key(#[trigger] names[j]),
    ensures
        first_unbound(m, names) == k,
    decreases names.len(),
{
    if k > 0 {
        assert(m.contains_key(names[0]));
        assert forall|j: int| 0 <= j < k - 1 implies m.contains_key(#[trigger] names.drop_first()[j]) by {
            assert(names.drop_first()[j] == names[j + 1]);
        }
        lemma_first_unbound(m, names.drop_first(), k - 1);
    }
}

/// The state of a run after its first `n` steps, step `i` having produced
/// `results[i]` (each output's name and the slot it was stored in): the name
/// table, or the error that stopped the run. A step runs only when every
/// entry of its input map names a bound tensor; it fails on the first that
/// does not.
pub open spec fn run_steps(
    steps: Seq<EnsembleStepView>,
    m0: Map<Seq<char>, usize>,
    results: Seq<Seq<(Seq<char>, usize)>>,
    n: nat,
) -> Result<Map<Seq<char>, usize>, EnsembleError>
    decreases n,
{
    if n == 0 {
        Ok(m0)
    } else {
        match run_steps(steps, m0, results, (n - 1) as nat) {
            Err(e) => Err(e),
            Ok(m) => {
                let k = n - 1;
                if feed_ready(m, steps[k].input_map) {
                    Ok(outputs_bound(m, steps[k].output_map, results[k]))
                } else {
                    Err(
                        EnsembleError::MissingTensor {
                            step: k as usize,
                            input: first_unfed(m, steps[k].input_map) as usize,
                        },
                    )
                }
            },
        }
    }
}

/// The result of a whole run of `plan` on request inputs named `names` (the
/// `i`-th in slot `i`), step `i` having produced `results[i]`: the slots of
/// the ensemble's outputs, in order, or the error that stopped the run.
pub open spec fn ensemble_outcome(
    plan: EnsemblePlanView,
    names: Seq<Seq<char>>,
    results: Seq<Seq<(Seq<char>, usize)>>,
) -> Result<Seq<usize>, EnsembleError> {
    match run_steps(plan.steps, bind_all(Map::empty(), names, 0), results, plan.steps.len()) {
        Err(e) => Err(e),
        Ok(m) => if forall|i: int| 0 <= i < plan.outputs.len() ==> m.contains_key(#[trigger] plan.outputs[i]) {
            Ok(plan.outputs.map_values(|o: Seq<char>| m[o]))
        } else {
            Err(EnsembleError::MissingOutput { output: first_unbound(m, plan.outputs) as usize })
        },
    }
}

proof fn lemma_run_steps_prefix(
    steps: Seq<EnsembleStepView>,
    m0: Map<Seq<char>, usize>,
    a: Seq<Seq<(Seq<char>, usize)>>,
    b: Seq<Seq<(Seq<char>, usize)>>,
    n: nat,
)
    requires
        n <= a.len(),
        n <= b.len(),
        a.take(n as int) == b.take(n as int),
    ensures
        run_steps(steps, m0, a, n) == run_steps(steps, m0, b, n),
    decreases n,
{
    if n > 0 {
        assert(a.take(n - 1) =~= a.take(n as int).take(n - 1));
        assert(b.take(n - 1) =~= b.take(n as int).take(n - 1));
        assert(a[n - 1] == a.take(n as int)[n - 1]);
        assert(b[n - 1] == b.take(n as int)[n - 1]);
        lemma_run_steps_prefix(steps, m0, a, b, (n - 1) as nat);
    }
}

proof fn lemma_run_steps_stays_failed(
    steps: Seq<EnsembleStepView>,
    m0: Map<Seq<char>, usize>,
    results: Seq<Seq<(Seq<char>, usize)>>,
    n: nat,
    n2: nat,
)
    requires
        n <= n2,
        run_steps(steps, m0, results, n) is Err,
    ensures
        run_steps(steps, m0, results, n2) == run_steps(steps, m0, results, n),
    decreases n2 - n,
{
    if n < n2 {
        lemma_run_steps_stays_failed(steps, m0, results, n, (n2 - 1) as nat);
    }
}

/// A run of an ensemble in progress: the name table, and how many steps
/// have run. The tensors themselves are the caller's; the run tells it which
/// slots to feed each step and which slots hold the outputs.
pub struct EnsembleRun {
    bindings: Bindings,
    next: usize,
    plan: Ghost<EnsemblePlanView>,
    names: Ghost<Seq<Seq<char>>>,
    done: Ghost<Seq<Seq<(Seq<char>, usize)>>>,
}

impl EnsembleRun {
    /// The plan being run.
    pub closed spec fn plan(&self) -> EnsemblePlanView {
        self.plan@
    }

    /// The names of the request's inputs.
    pub closed spec fn names(&self) -> Seq<Seq<char>> {
        self.names@
    }

    /// What each step that ran produced.
    pub closed spec fn done(&self) -> Seq<Seq<(Seq<char>, usize)>> {
        self.done@
    }

    /// The name table.
    pub closed spec fn table(&self) -> Map<Seq<char>, usize> {
        self.bindings@
    }

    /// The step to run next.
    pub closed spec fn next(&self) -> nat {
        self.next as nat
    }

    /// The table is the one that the steps run so far give.
    pub closed spec fn wf(&self) -> bool {
        &&& self.next == self.done@.len()
        &&& self.next <= self.plan@.steps.len()
        &&& run_steps(self.plan@.steps, bind_all(Map::empty(), self.names@, 0), self.done@, self.next as nat)
            == Ok::<Map<Seq<char>, usize>, EnsembleError>(self.bindings@)
    }

    /// Starts a run of `plan` on request inputs named `names`, the `i`-th in
    /// slot `i`.
    pub fn start(plan: &EnsemblePlan, names: &Vec<String>) -> (r: Self)
        ensures
            r.wf(),
            r.plan() == plan@,
            r.names() == string_views(names@),
            r.done() == Seq::<Seq<(Seq<char>, usize)>>::empty(),
            r.next() == 0,
            r.table() == bind_all(Map::empty(), string_views(names@), 0),
    {
        EnsembleRun {
            bindings: bind_inputs(names),
            next: 0,
            plan: Ghost(plan@),
            names: Ghost(string_views(names@)),
            done: Ghost(Seq::empty()),
        }
    }

    /// Whether every step has run.
    pub fn finished(&self, plan: &EnsemblePlan) -> (r: bool)
        requires
            self.wf(),
            plan@ == self.plan(),
        ensures
            r == (self.next() == self.plan().steps.len()),
    {
        self.next == plan.steps.len()
    }

    /// The index of the step to run next.
    pub fn step_index(&self) -> (r: usize)
        ensures
            r == self.next(),
    {
        self.next
    }

    /// The inputs of the next step: for each entry of its input map, the key
    /// and the slot to feed it. An unbound entry stops the run with the error
    /// that the whole-run semantics gives for this step, whatever it and
    /// later steps would produce.
    pub fn feed(&self, plan: &EnsemblePlan) -> (r: Result<Vec<(String, usize)>, EnsembleError>)
        requires
            self.wf(),
            plan@ == self.plan(),
            self.next() < self.plan().steps.len(),
        ensures
            r is Ok <==> feed_ready(self.table(), self.plan().steps[self.next() as int].input_map),
            r matches Ok(v) ==> v@.len() == self.plan().steps[self.next() as int].input_map.len()
                && forall|i: int|
                0 <= i < v@.len() ==> (#[trigger] v@[i]).0@ == self.plan().steps[self.next() as int].input_map[i].key
                    && v@[i].1 == self.table()[self.plan().steps[self.next() as int].input_map[i].value],
            r matches Err(e) ==> forall|rs: Seq<Seq<(Seq<char>, usize)>>|
                rs.len() > self.next() && rs.take(self.next() as int) == self.done() ==> #[trigger] run_steps(
                    self.plan().steps,
                    bind_all(Map::empty(), self.names(), 0),
                    rs,
                    self.next() + 1,
                ) == Err::<Map<Seq<char>, usize>, EnsembleError>(e),
            r matches Err(e) ==> forall|rs: Seq<Seq<(Seq<char>, usize)>>|
                rs.len() == self.plan().steps.len() && rs.take(self.next() as int) == self.done()
                    ==> #[trigger] ensemble_outcome(self.plan(), self.names(), rs) == Err::<
                    Seq<usize>,
                    EnsembleError,
                >(e),
    {
        let k = self.next;
        let step = &plan.steps[k];
        proof {
            assert(plan@.steps[k as int] == step@);
        }
        let r = step_inputs(&self.bindings, &step.input_map, k);
        match &r {
            Ok(v) => {
                proof {
                    assert forall|i: int| 0 <= i < v@.len() implies (#[trigger] v@[i]).0@ == self.plan().steps[k as int].input_map[i].key
                        && v@[i].1 == self.table()[self.plan().steps[k as int].input_map[i].value] by {
                        assert(kv_views(step.input_map@)[i] == step.input_map@[i]@);
                    }
                }
            },
            Err(e) => {
                proof {
                    let im = kv_views(step.input_map@);
                    let ghost idx: int = match e {
                        EnsembleError::MissingTensor { step: _, input } => *input as int,
                        _ => 0,
                    };
                    assert(im[idx] == step.input_map@[idx]@);
                    assert forall|j: int| 0 <= j < idx implies self.bindings@.contains_key(#[trigger] im[j].value) by {
                        assert(im[j] == step.input_map@[j]@);
                    }
                    lemma_first_unfed(self.bindings@, im, idx);
                    assert forall|rs: Seq<Seq<(Seq<char>, usize)>>|
                        rs.len() > self.next() && rs.take(self.next() as int) == self.done() implies #[trigger] run_steps(
                        self.plan().steps,
                        bind_all(Map::empty(), self.names(), 0),
                        rs,
                        self.next() + 1,
                    ) == Err::<Map<Seq<char>, usize>, EnsembleError>(*e) by {
                        assert(self.done@.take(k as int) =~= self.done@);
                        lemma_run_steps_prefix(
                            self.plan@.steps,
                            bind_all(Map::empty(), self.names@, 0),
                            rs,
                            self.done@,
                            k as nat,
                        );
                    }
                    assert forall|rs: Seq<Seq<(Seq<char>, usize)>>|
                        rs.len() == self.plan().steps.len() && rs.take(self.next() as int) == self.done()
                            implies #[trigger] ensemble_outcome(self.plan(), self.names(), rs) == Err::<
                        Seq<usize>,
                        EnsembleError,
                    >(*e) by {
                        assert(self.done@.take(k as int) =~= self.done@);
                        lemma_run_steps_prefix(
                            self.plan@.steps,
                            bind_all(Map::empty(), self.names@, 0),
                            rs,
                            self.done@,
                            k as nat,
                        );
                        lemma_run_steps_stays_failed(
                            self.plan@.steps,
                            bind_all(Map::empty(), self.names@, 0),
                            rs,
                            (k + 1) as nat,
                            self.plan@.steps.len(),
                        );
                    }
                }
            },
        }
        r
    }

    /// Records what the next step produced (each output's name and the slot
    /// the caller stored it in) and moves on: each output that the step's
    /// output map routes is bound, the rest are dropped.
    pub fn record(&mut self, plan: &EnsemblePlan, produced: &Vec<(String, usize)>)
        requires
            old(self).wf(),
            plan@ == old(self).plan(),
            old(self).next() < old(self).plan().steps.len(),
            feed_ready(old(self).table(), old(self).plan().steps[old(self).next() as int].input_map),
        ensures
            final(self).wf(),
            final(self).plan() == old(self).plan(),
            final(self).names() == old(self).names(),
            final(self).done() == old(self).done().push(pair_views(produced@)),
            final(self).next() == old(self).next() + 1,
            final(self).table() == outputs_bound(
                old(self).table(),
                old(self).plan().steps[old(self).next() as int].output_map,
                pair_views(produced@),
            ),
    {
        let k = self.next;
        assert(step_views(plan.steps@).len() == plan.steps@.len());
        let step = &plan.steps[k];
        proof {
            assert(plan@.steps[k as int] == step@);
        }
        bind_outputs(&mut self.bindings, &step.output_map, produced);
        let ghost done2 = self.done@.push(pair_views(produced@));
        proof {
            assert(done2.take(k as int) =~= self.done@.take(k as int));
            assert(self.done@.take(k as int) =~= self.done@);
            lemma_run_steps_prefix(
                self.plan@.steps,
                bind_all(Map::empty(), self.names@, 0),
                done2,
                self.done@,
                k as nat,
            );
            assert(done2[k as int] == pair_views(produced@));
        }
        self.done = Ghost(done2);
        let total = plan.steps.len();
        assert(k < total);
        self.next = k + 1;
    }

    /// The slots of the ensemble's outputs once every step has run: the
    /// outcome of the whole run.
    pub fn outputs(&self, plan: &EnsemblePlan) -> (r: Result<Vec<usize>, EnsembleError>)
        requires
            self.wf(),
            plan@ == self.plan(),
            self.next() == self.plan().steps.len(),
        ensures
            r matches Ok(v) ==> ensemble_outcome(self.plan(), self.names(), self.done())
                == Ok::<Seq<usize>, EnsembleError>(v@),
            r matches Err(e) ==> ensemble_outcome(self.plan(), self.names(), self.done())
                == Err::<Seq<usize>, EnsembleError>(e),
    {
        let r = collect_outputs(&self.bindings, &plan.outputs);
        proof {
            let outs = string_views(plan.outputs@);
            assert forall|i: int| 0 <= i < outs.len() implies outs[i] == plan.outputs@[i]@ by {}
            match &r {
                Ok(v) => {
                    assert forall|i: int| 0 <= i < outs.len() implies self.bindings@.contains_key(#[trigger] outs[i]) by {
                        assert(outs[i] == plan.outputs@[i]@);
                    }
                    assert(v@ =~= outs.map_values(|o: Seq<char>| self.bindings@[o]));
                },
                Err(e) => {
                    let ghost idx: int = match e {
                        EnsembleError::MissingOutput { output } => *output as int,
                        _ => 0,
                    };
                    assert(outs[idx] == plan.outputs@[idx]@);
                    assert forall|j: int| 0 <= j < idx implies self.bindings@.contains_key(#[trigger] outs[j]) by {
                        assert(outs[j] == plan.outputs@[j]@);
                    }
                    lemma_first_unbound(self.bindings@, outs, idx);
                },
            }
        }
        r
    }
}


proof fn lemma_first_unfed_props(m: Map<Seq<char>, usize>, im: Seq<KeyValueView>)
    ensures
        0 <= first_unfed(m, im) <= im.len(),
        forall|j: int| 0 <= j < first_unfed(m, im) ==> m.contains_key(#[trigger] im[j].value),
        first_unfed(m, im) < im.len() ==> !m.contains_key(im[first_unfed(m, im)].value),
        first_unfed(m, im) == im.len() ==> feed_ready(m, im),
    decreases im.len(),
{
    if im.len() > 0 && m.contains_key(im[0].value) {
        let t = im.drop_first();
        lemma_first_unfed_props(m, t);
        assert forall|j: int| 0 <= j < first_unfed(m, im) implies m.contains_key(#[trigger] im[j].value) by {
            if j > 0 {
                assert(im[j] == t[j - 1]);
            }
        }
        if first_unfed(m, im) < im.len() {
            assert(im[first_unfed(m, im)] == t[first_unfed(m, t)]);
        }
    }
}

proof fn lemma_first_unbound_props(m: Map<Seq<char>, usize>, names: Seq<Seq<char>>)
    ensures
        0 <= first_unbound(m, names) <= names.len(),
        forall|j: int| 0 <= j < first_unbound(m, names) ==> m.contains_key(#[trigger] names[j]),
        first_unbound(m, names) < names.len() ==> !m.contains_key(names[first_unbound(m, names)]),
        first_unbound(m, names) == names.len() ==> forall|j: int|
            0 <= j < names.len() ==> m.contains_key(#[trigger] names[j]),
    decreases names.len(),
{
    if names.len() > 0 && m.contains_key(names[0]) {
        let t = names.drop_first();
        lemma_first_unbound_props(m, t);
        assert forall|j: int| 0 <= j < first_unbound(m, names) implies m.contains_key(#[trigger] names[j]) by {
            if j > 0 {
                assert(names[j] == t[j - 1]);
            }
        }
        if first_unbound(m, names) < names.len() {
            assert(names[first_unbound(m, names)] == t[first_unbound(m, t)]);
        }
    }
}

/// An output map routes a name to the value of its first entry with that
/// key, and routes it nowhere when no entry has that key.
pub proof fn law_route_first(om: Seq<KeyValueView>, name: Seq<char>)
    ensures
        route_of(om, name) is None <==> forall|j: int| 0 <= j < om.len() ==> (#[trigger] om[j]).key != name,
        route_of(om, name) matches Some(v) ==> exists|j: int|
            0 <= j < om.len() && (#[trigger] om[j]).key == name && om[j].value == v && forall|l: int|
                0 <= l < j ==> (#[trigger] om[l]).key != name,
    decreases om.len(),
{
    if om.len() > 0 {
        let t = om.drop_first();
        law_route_first(t, name);
        if om[0].key == name {
            assert(om[0].key == name && om[0].value == route_of(om, name)->Some_0);
        } else {
            assert forall|j: int| 0 <= j < t.len() implies #[trigger] t[j] == om[j + 1] by {}
            if route_of(om, name) is None {
                assert forall|j: int| 0 <= j < om.len() implies (#[trigger] om[j]).key != name by {
                    if j > 0 {
                        assert(om[j] == t[j - 1]);
                    }
                }
            } else {
                let v = route_of(om, name)->Some_0;
                let j = choose|j: int|
                    0 <= j < t.len() && (#[trigger] t[j]).key == name && t[j].value == v && forall|l: int|
                        0 <= l < j ==> (#[trigger] t[l]).key != name;
                assert(om[j + 1] == t[j]);
                assert forall|l: int| 0 <= l < j + 1 implies (#[trigger] om[l]).key != name by {
                    if l > 0 {
                        assert(om[l] == t[l - 1]);
                    }
                }
            }
            if forall|j: int| 0 <= j < om.len() ==> (#[trigger] om[j]).key != name {
                assert forall|j: int| 0 <= j < t.len() implies (#[trigger] t[j]).key != name by {
                    assert(t[j] == om[j + 1]);
                }
            }
        }
    }
}

/// What a step's outputs do to the name table: a name that the output map
/// routes some produced output to is bound to the slot of the last such
/// output; a name that no produced output is routed to keeps what it had.
/// Outputs that the map does not route are dropped.
pub proof fn law_step_outputs(
    m: Map<Seq<char>, usize>,
    om: Seq<KeyValueView>,
    p: Seq<(Seq<char>, usize)>,
    x: Seq<char>,
)
    ensures
        (forall|i: int| 0 <= i < p.len() ==> route_of(om, (#[trigger] p[i]).0) != Some(x)) ==> (
        outputs_bound(m, om, p).contains_key(x) == m.contains_key(x) && (m.contains_key(x)
            ==> outputs_bound(m, om, p)[x] == m[x])),
        forall|i: int|
            0 <= i < p.len() && route_of(om, (#[trigger] p[i]).0) == Some(x) && (forall|j: int|
                i < j < p.len() ==> route_of(om, (#[trigger] p[j]).0) != Some(x)) ==> outputs_bound(
                m,
                om,
                p,
            ).contains_key(x) && outputs_bound(m, om, p)[x] == p[i].1,
    decreases p.len(),
{
    if p.len() > 0 {
        let q = p.drop_last();
        law_step_outputs(m, om, q, x);
        assert forall|i: int| 0 <= i < q.len() implies #[trigger] q[i] == p[i] by {}
        let last = p.len() - 1;
        assert(p.last() == p[last]);
        assert forall|i: int|
            0 <= i < p.len() && route_of(om, (#[trigger] p[i]).0) == Some(x) && (forall|j: int|
                i < j < p.len() ==> route_of(om, (#[trigger] p[j]).0) != Some(x)) implies outputs_bound(
            m,
            om,
            p,
        ).contains_key(x) && outputs_bound(m, om, p)[x] == p[i].1 by {
            if i < last {
                assert(route_of(om, p[last].0) != Some(x));
                assert(q[i] == p[i]);
                assert forall|j: int| i < j < q.len() implies route_of(om, (#[trigger] q[j]).0) != Some(x) by {
                    assert(q[j] == p[j]);
                }
            }
        }
    }
}

proof fn lemma_run_steps_error(
    steps: Seq<EnsembleStepView>,
    m0: Map<Seq<char>, usize>,
    results: Seq<Seq<(Seq<char>, usize)>>,
    n: nat,
)
    ensures
        run_steps(steps, m0, results, n) matches Err(e) ==> exists|k: nat|
            #![trigger run_steps(steps, m0, results, k)]
            k < n && run_steps(steps, m0, results, k) is Ok && !feed_ready(
                run_steps(steps, m0, results, k)->Ok_0,
                steps[k as int].input_map,
            ) && e == (EnsembleError::MissingTensor {
                step: k as usize,
                input: first_unfed(run_steps(steps, m0, results, k)->Ok_0, steps[k as int].input_map) as usize,
            }),
    decreases n,
{
    if n > 0 {
        lemma_run_steps_error(steps, m0, results, (n - 1) as nat);
        if run_steps(steps, m0, results, (n - 1) as nat) is Ok {
            let k = (n - 1) as nat;
            assert(run_steps(steps, m0, results, k) is Ok);
        }
    }
}

/// The name table of a run of `plan` once its first `k` steps ran.
pub open spec fn table_after(
    plan: EnsemblePlanView,
    names: Seq<Seq<char>>,
    results: Seq<Seq<(Seq<char>, usize)>>,
    k: nat,
) -> Map<Seq<char>, usize> {
    run_steps(plan.steps, bind_all(Map::empty(), names, 0), results, k)->Ok_0
}

/// The first `step` steps ran, and step `step` cannot: its input map entry
/// `input` is the first that names no bound tensor.
pub open spec fn stops_at_input(
    plan: EnsemblePlanView,
    names: Seq<Seq<char>>,
    results: Seq<Seq<(Seq<char>, usize)>>,
    step: int,
    input: int,
) -> bool {
    let m = table_after(plan, names, results, step as nat);
    let im = plan.steps[step].input_map;
    &&& 0 <= step < plan.steps.len()
    &&& run_steps(plan.steps, bind_all(Map::empty(), names, 0), results, step as nat) is Ok
    &&& 0 <= input < im.len()
    &&& !m.contains_key(im[input].value)
    &&& forall|j: int| 0 <= j < input ==> m.contains_key(#[trigger] im[j].value)
}

/// Every step ran, and declared output `output` is the first that the final
/// table does not bind.
pub open spec fn stops_at_output(
    plan: EnsemblePlanView,
    names: Seq<Seq<char>>,
    results: Seq<Seq<(Seq<char>, usize)>>,
    output: int,
) -> bool {
    let m = table_after(plan, names, results, plan.steps.len());
    &&& run_steps(plan.steps, bind_all(Map::empty(), names, 0), results, plan.steps.len()) is Ok
    &&& 0 <= output < plan.outputs.len()
    &&& !m.contains_key(plan.outputs[output])
    &&& forall|j: int| 0 <= j < output ==> m.contains_key(#[trigger] plan.outputs[j])
}

/// Every step ran, and `v` holds, for each declared output in order, the
/// slot that the final table binds it to.
pub open spec fn delivers(
    plan: EnsemblePlanView,
    names: Seq<Seq<char>>,
    results: Seq<Seq<(Seq<char>, usize)>>,
    v: Seq<usize>,
) -> bool {
    let m = table_after(plan, names, results, plan.steps.len());
    &&& run_steps(plan.steps, bind_all(Map::empty(), names, 0), results, plan.steps.len()) is Ok
    &&& v.len() == plan.outputs.len()
    &&& forall|i: int| 0 <= i < v.len() ==> m.contains_key(plan.outputs[i]) && #[trigger] v[i] == m[plan.outputs[i]]
}

/// What a whole run of an ensemble gives, step `i` having produced
/// `results[i]`: on success, one slot per declared output, in order, each the
/// slot that the final name table binds the output to; the run fails with
/// `MissingTensor` at the first step one of whose input map entries names no
/// bound tensor (at the first such entry, after all earlier steps ran), and
/// with `MissingOutput` at the first declared output that the final table
/// does not bind; no other error comes out of a run.
pub proof fn law_ensemble_run(
    plan: EnsemblePlanView,
    names: Seq<Seq<char>>,
    results: Seq<Seq<(Seq<char>, usize)>>,
)
    requires
        plan.steps.len() <= usize::MAX,
        plan.outputs.len() <= usize::MAX,
        forall|k: int| 0 <= k < plan.steps.len() ==> (#[trigger] plan.steps[k]).input_map.len() <= usize::MAX,
    ensures
        ensemble_outcome(plan, names, results) matches Ok(v) ==> delivers(plan, names, results, v),
        ensemble_outcome(plan, names, results) matches Err(e) ==> (e matches EnsembleError::MissingTensor {
            step,
            input,
        } && stops_at_input(plan, names, results, step as int, input as int)) || (
        e matches EnsembleError::MissingOutput { output } && stops_at_output(
            plan,
            names,
            results,
            output as int,
        )),
{
    let m0 = bind_all(Map::empty(), names, 0);
    let n = plan.steps.len();
    lemma_run_steps_error(plan.steps, m0, results, n);
    match run_steps(plan.steps, m0, results, n) {
        Ok(m) => {
            lemma_first_unbound_props(m, plan.outputs);
        },
        Err(e) => {
            let k = choose|k: nat|
                #![trigger run_steps(plan.steps, m0, results, k)]
                k < n && run_steps(plan.steps, m0, results, k) is Ok && !feed_ready(
                    run_steps(plan.steps, m0, results, k)->Ok_0,
                    plan.steps[k as int].input_map,
                ) && e == (EnsembleError::MissingTensor {
                    step: k as usize,
                    input: first_unfed(run_steps(plan.steps, m0, results, k)->Ok_0, plan.steps[k as int].input_map) as usize,
                });
            let mk = run_steps(plan.steps, m0, results, k)->Ok_0;
            lemma_first_unfed_props(mk, plan.steps[k as int].input_map);
            assert(plan.steps[k as int].input_map.len() <= usize::MAX);
        },
    }
}

} // verus!
