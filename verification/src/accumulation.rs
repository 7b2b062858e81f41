use vstd::prelude::*;

verus! {

/// A single trailer value, as carried in a message's metadata block.
#[derive(Debug, Clone, PartialEq, Eq)]
pub struct TrailerValue {
    text: String,
}

impl View for TrailerValue {
    type V = Seq<char>;

    closed spec fn view(&self) -> Seq<char> {
        self.text@
    }
}

impl TrailerValue {
    /// A value from raw text.
    pub fn from_slice(s: &str) -> (r: TrailerValue)
        ensures
            r@ == s@,
    {
        TrailerValue { text: s.to_owned() }
    }

    /// The value's text.
    pub fn to_string(&self) -> (r: String)
        ensures
            r@ == self@,
    {
        self.text.clone()
    }
}

/// A trailer: a key together with one value.
#[derive(Debug, Clone)]
pub struct Trailer {
    /// The trailer's key.
    pub key: String,
    /// The trailer's value.
    pub value: TrailerValue,
}

impl Trailer {
    /// A trailer from its parts.
    pub fn new(key: String, value: TrailerValue) -> (r: Trailer)
        ensures
            r.key@ == key@,
            r.value == value,
    {
        Trailer { key, value }
    }
}

/// Policy for accumulating trailer values under one key.
#[derive(Clone, Copy, PartialEq, Eq, Structural, Debug)]
pub enum AccumulationPolicy {
    Latest,
    List,
}

/// One accumulation step: what the values under a key become when one more
/// value arrives. A `Latest` accumulator keeps the first value it sees —
/// messages are visited newest first — while a `List` accumulator appends.
pub open spec fn acc_step(
    policy: AccumulationPolicy,
    values: Seq<TrailerValue>,
    v: TrailerValue,
) -> Seq<TrailerValue> {
    match policy {
        AccumulationPolicy::Latest => if values.len() == 0 {
            seq![v]
        } else {
            values
        },
        AccumulationPolicy::List => values.push(v),
    }
}

/// Accumulation helper for trailer values.
#[derive(Debug)]
pub enum ValueAccumulator {
    Latest(Option<TrailerValue>),
    List(Vec<TrailerValue>),
}

impl View for ValueAccumulator {
    type V = Seq<TrailerValue>;

    closed spec fn view(&self) -> Seq<TrailerValue> {
        match self {
            ValueAccumulator::Latest(v) => match v {
                Some(x) => seq![*x],
                None => Seq::empty(),
            },
            ValueAccumulator::List(vs) => vs@,
        }
    }
}

impl ValueAccumulator {
    /// The policy the accumulator was built for.
    pub open spec fn policy(&self) -> AccumulationPolicy {
        match self {
            ValueAccumulator::Latest(_) => AccumulationPolicy::Latest,
            ValueAccumulator::List(_) => AccumulationPolicy::List,
        }
    }

    /// An empty accumulator for the policy given.
    pub fn from(policy: AccumulationPolicy) -> (r: ValueAccumulator)
        ensures
            r.policy() == policy,
            r@ == Seq::<TrailerValue>::empty(),
    {
        match policy {
            AccumulationPolicy::Latest => ValueAccumulator::Latest(None),
            AccumulationPolicy::List => ValueAccumulator::List(Vec::new()),
        }
    }

    /// Process a new trailer value, as the policy directs.
    pub fn process(&mut self, new_value: TrailerValue)
        ensures
            final(self).policy() == old(self).policy(),
            final(self)@ == acc_step(old(self).policy(), old(self)@, new_value),
    {
        match self {
            ValueAccumulator::Latest(value) => {
                if value.is_none() {
                    *value = Some(new_value);
                }
            },
            ValueAccumulator::List(values) => {
                values.push(new_value);
            },
        }
    }

    /// The accumulated values, in accumulation order.
    pub fn into_values(self) -> (r: Vec<TrailerValue>)
        ensures
            r@ == self@,
    {
        match self {
            ValueAccumulator::Latest(v) => {
                match v {
                    Some(x) => {
                        let mut out: Vec<TrailerValue> = Vec::new();
                        out.push(x);
                        out
                    },
                    None => Vec::new(),
                }
            },
            ValueAccumulator::List(vs) => vs,
        }
    }
}

impl Default for ValueAccumulator {
    /// The default accumulator keeps a single latest value.
    fn default() -> (r: ValueAccumulator)
        ensures
            r.policy() == AccumulationPolicy::Latest,
            r@ == Seq::<TrailerValue>::empty(),
    {
        ValueAccumulator::Latest(None)
    }
}

/// What a keyed accumulator holds: for each registered key, its policy and
/// the values accumulated so far.
pub type AccModel = Map<Seq<char>, (AccumulationPolicy, Seq<TrailerValue>)>;

/// Processing one trailer against a keyed accumulator: a registered key
/// accumulates the value under its policy, an unregistered one is dropped.
pub open spec fn spec_process(m: AccModel, key: Seq<char>, v: TrailerValue) -> AccModel {
    if m.contains_key(key) {
        m.insert(key, (m[key].0, acc_step(m[key].0, m[key].1, v)))
    } else {
        m
    }
}

/// Processing a whole batch of trailers, in order.
pub open spec fn spec_process_all(m: AccModel, trailers: Seq<Trailer>) -> AccModel
    decreases trailers.len(),
{
    if trailers.len() == 0 {
        m
    } else {
        spec_process(
            spec_process_all(m, trailers.drop_last()),
            trailers.last().key@,
            trailers.last().value,
        )
    }
}

/// Accumulation trait for trailers: anything that holds keyed value
/// accumulators and feeds matching trailers into them.
pub trait Accumulator: Sized {
    /// The keyed accumulators held.
    spec fn model(&self) -> AccModel;

    /// Process a new trailer: if its key is registered, accumulate its
    /// value.
    fn process(&mut self, trailer: Trailer)
        ensures
            final(self).model() == spec_process(old(self).model(), trailer.key@, trailer.value),
    ;

    /// Process all trailers of a batch, in order.
    fn process_all(&mut self, trailers: Vec<Trailer>)
        ensures
            final(self).model() == spec_process_all(old(self).model(), trailers@),
    ;
}

/// Accumulator for a single piece of metadata, e.g. the assignee of an
/// issue.
pub struct SingleAccumulator {
    key: String,
    acc: ValueAccumulator,
}

impl SingleAccumulator {
    /// Create a new accumulator for trailers with the key specified.
    pub fn new(key: String, policy: AccumulationPolicy) -> (r: SingleAccumulator)
        ensures
            r.model() == Map::<Seq<char>, (AccumulationPolicy, Seq<TrailerValue>)>::empty()
                .insert(key@, (policy, Seq::empty())),
    {
        let r = SingleAccumulator { key, acc: ValueAccumulator::from(policy) };
        proof {
            assert(r.model() =~= Map::<Seq<char>, (AccumulationPolicy, Seq<TrailerValue>)>::empty()
                .insert(r.key@, (policy, Seq::empty())));
        }
        r
    }

    /// The accumulated values, in accumulation order.
    pub fn into_values(self) -> (r: Vec<TrailerValue>)
        ensures
            r@ == self.model()[self.skey()].1,
    {
        self.acc.into_values()
    }

    /// The key the accumulator listens for.
    pub closed spec fn skey(&self) -> Seq<char> {
        self.key@
    }
}

impl Accumulator for SingleAccumulator {
    closed spec fn model(&self) -> AccModel {
        Map::empty().insert(self.key@, (self.acc.policy(), self.acc@))
    }

    fn process(&mut self, trailer: Trailer) {
        let ghost pre = self.model();
        if trailer.key == self.key {
            self.acc.process(trailer.value);
        }
        proof {
            assert(self.model() =~= spec_process(pre, trailer.key@, trailer.value));
        }
    }

    fn process_all(&mut self, trailers: Vec<Trailer>) {
        let ghost ts = trailers@;
        let mut rest = trailers;
        let ghost done: int = 0;
        proof {
            assert(rest@ =~= ts.skip(0));
            assert(spec_process_all(old(self).model(), ts.take(0)) =~= old(self).model());
        }
        while rest.len() > 0
            invariant
                0 <= done <= ts.len(),
                rest@ == ts.skip(done),
                self.model() == spec_process_all(old(self).model(), ts.take(done)),
            decreases rest@.len(),
        {
            let t = rest.remove(0);
            proof {
                assert(ts.skip(done)[0] == ts[done]);
            }
            self.process(t);
            proof {
                assert(ts.take(done + 1).drop_last() =~= ts.take(done));
                assert(ts.take(done + 1).last() == ts[done]);
                assert(rest@ =~= ts.skip(done + 1));
            }
            proof {
                done = done + 1;
            }
        }
        proof {
            assert(ts.take(done) =~= ts);
        }
    }
}

/// Iterator pairing one key with each accumulated value in turn.
pub struct SingleKeyTrailerAssemblyIterator {
    key: String,
    values: Vec<TrailerValue>,
}

impl SingleKeyTrailerAssemblyIterator {
    /// The pairs not yet produced: the key beside each remaining value.
    pub closed spec fn remaining(self) -> Seq<(Seq<char>, TrailerValue)> {
        self.values@.map_values(|v: TrailerValue| (self.key@, v))
    }

    fn new(key: String, values: Vec<TrailerValue>) -> (r: SingleKeyTrailerAssemblyIterator)
        ensures
            r.remaining() == values@.map_values(|v: TrailerValue| (key@, v)),
    {
        SingleKeyTrailerAssemblyIterator { key, values }
    }

    /// The next key-value pair, if a value remains.
    pub fn next(&mut self) -> (r: Option<(String, TrailerValue)>)
        ensures
            match r {
                Some(p) => old(self).remaining().len() > 0
                    && p.0@ == old(self).remaining().first().0
                    && p.1 == old(self).remaining().first().1
                    && final(self).remaining() == old(self).remaining().drop_first(),
                None => old(self).remaining().len() == 0
                    && final(self).remaining() == old(self).remaining(),
            },
    {
        if self.values.len() == 0 {
            return None;
        }
        let v = self.values.remove(0);
        proof {
            assert(self.remaining() =~= old(self).remaining().drop_first());
        }
        Some((self.key.clone(), v))
    }
}

impl SingleAccumulator {
    /// Turn the accumulator into an iterator over key-value pairs.
    pub fn into_iter(self) -> (r: SingleKeyTrailerAssemblyIterator)
        ensures
            r.remaining() == self.model()[self.skey()].1.map_values(
                |v: TrailerValue| (self.skey(), v),
            ),
    {
        let SingleAccumulator { key, acc } = self;
        SingleKeyTrailerAssemblyIterator::new(key, acc.into_values())
    }
}

} // verus!
