//! The values a request's path gives to the placeholders of its route.

use vstd::prelude::*;
use crate::text::same_text;

verus! {

/// A captured value as contracts see it.
pub enum Capture {
    Int(int),
    Float(Seq<char>),
    Text(Seq<char>),
}

/// What a placeholder captured from a request path. A float is kept as the
/// decimal text that denotes it.
#[derive(Debug, PartialEq, Eq)]
pub enum CapturedValue {
    Int(i64),
    Float(String),
    String(String),
}

impl View for CapturedValue {
    type V = Capture;

    open spec fn view(&self) -> Capture {
        match self {
            CapturedValue::Int(v) => Capture::Int(*v as int),
            CapturedValue::Float(text) => Capture::Float(text@),
            CapturedValue::String(text) => Capture::Text(text@),
        }
    }
}

impl Clone for CapturedValue {
    fn clone(&self) -> (copy: CapturedValue)
        ensures
            copy@ == self@,
    {
        match self {
            CapturedValue::Int(v) => CapturedValue::Int(*v),
            CapturedValue::Float(text) => CapturedValue::Float(text.clone()),
            CapturedValue::String(text) => CapturedValue::String(text.clone()),
        }
    }
}

/// A name and the value bound to it.
pub struct Binding {
    pub name: Seq<char>,
    pub value: Capture,
}

/// The mapping that binding after binding builds up: a later binding of a
/// name replaces an earlier one.
pub open spec fn bag_of(bindings: Seq<Binding>) -> Map<Seq<char>, Capture>
    decreases bindings.len(),
{
    if bindings.len() == 0 {
        Map::empty()
    } else {
        bag_of(bindings.drop_last()).insert(bindings.last().name, bindings.last().value)
    }
}

/// The bindings that a sequence of pairs holds.
pub open spec fn bindings_of(pairs: Seq<(&'static str, CapturedValue)>) -> Seq<Binding> {
    pairs.map_values(|p: (&'static str, CapturedValue)| Binding { name: p.0@, value: p.1@ })
}

/// The last binding of a name is the one the mapping holds.
pub proof fn lemma_last_binding_wins(bindings: Seq<Binding>, i: int)
    requires
        0 <= i < bindings.len(),
        forall|k: int| i < k < bindings.len() ==> bindings[k].name != bindings[i].name,
    ensures
        bag_of(bindings).contains_key(bindings[i].name),
        bag_of(bindings)[bindings[i].name] == bindings[i].value,
    decreases bindings.len(),
{
    if i < bindings.len() - 1 {
        lemma_last_binding_wins(bindings.drop_last(), i);
    }
}

/// A name that no binding has is not in the mapping.
pub proof fn lemma_unbound_name_is_absent(bindings: Seq<Binding>, name: Seq<char>)
    requires
        forall|k: int| 0 <= k < bindings.len() ==> bindings[k].name != name,
    ensures
        !bag_of(bindings).contains_key(name),
    decreases bindings.len(),
{
    if bindings.len() > 0 {
        lemma_unbound_name_is_absent(bindings.drop_last(), name);
    }
}

/// The captured values of one request, by placeholder name.
#[derive(Debug)]
pub struct ParameterBag {
    pairs: Vec<(&'static str, CapturedValue)>,
}

impl View for ParameterBag {
    type V = Map<Seq<char>, Capture>;

    closed spec fn view(&self) -> Map<Seq<char>, Capture> {
        bag_of(bindings_of(self.pairs@))
    }
}

impl Clone for ParameterBag {
    fn clone(&self) -> (copy: ParameterBag)
        ensures
            copy@ == self@,
    {
        let mut pairs: Vec<(&'static str, CapturedValue)> = Vec::new();
        let mut i: usize = 0;
        while i < self.pairs.len()
            invariant
                i <= self.pairs@.len(),
                bindings_of(pairs@) == bindings_of(self.pairs@).take(i as int),
            decreases self.pairs@.len() - i,
        {
            let ghost before = pairs@;
            let ghost binding = bindings_of(self.pairs@)[i as int];
            let name = self.pairs[i].0;
            let value = self.pairs[i].1.clone();
            pairs.push((name, value));
            assert(bindings_of(pairs@) == bindings_of(before).push(binding));
            assert(bindings_of(self.pairs@).take(i + 1) == bindings_of(self.pairs@).take(i as int).push(
                binding,
            ));
            i = i + 1;
        }
        assert(bindings_of(self.pairs@).take(i as int) == bindings_of(self.pairs@));
        ParameterBag { pairs }
    }
}

impl ParameterBag {
    /// A bag that holds nothing.
    pub fn new() -> (bag: ParameterBag)
        ensures
            bag@ == Map::<Seq<char>, Capture>::empty(),
    {
        ParameterBag { pairs: Vec::new() }
    }

    /// Binds `key` to `value`, in place of what `key` was bound to before.
    pub fn add(&mut self, key: &'static str, value: CapturedValue)
        ensures
            final(self)@ == old(self)@.insert(key@, value@),
    {
        let ghost before = bindings_of(self.pairs@);
        let ghost binding = Binding { name: key@, value: value@ };
        self.pairs.push((key, value));
        proof {
            let after = bindings_of(self.pairs@);
            assert(after.drop_last() == before);
            assert(after.last() == binding);
        }
    }

    /// The value bound to `key`, if one is.
    pub fn get(&self, key: &str) -> (found: Option<&CapturedValue>)
        ensures
            match found {
                Some(value) => self@.contains_key(key@) && self@[key@] == value@,
                None => !self@.contains_key(key@),
            },
    {
        let ghost bindings = bindings_of(self.pairs@);
        let mut i: usize = self.pairs.len();
        while i > 0
            invariant
                i <= self.pairs@.len(),
                bindings == bindings_of(self.pairs@),
                forall|k: int| i <= k < bindings.len() ==> (#[trigger] bindings[k]).name != key@,
            decreases i,
        {
            i = i - 1;
            assert(bindings[i as int].name == self.pairs@[i as int].0@);
            if same_text(self.pairs[i].0, key) {
                proof {
                    lemma_last_binding_wins(bindings, i as int);
                }
                return Some(&self.pairs[i].1);
            }
        }
        proof {
            lemma_unbound_name_is_absent(bindings, key@);
        }
        None
    }

    /// Every binding made, in the order in which it was made. Where a name
    /// occurs more than once, its last binding is the one in force.
    pub fn bindings(&self) -> (pairs: &Vec<(&'static str, CapturedValue)>)
        ensures
            bag_of(bindings_of(pairs@)) == self@,
    {
        &self.pairs
    }
}

} // verus!
