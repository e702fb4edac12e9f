//! Values and the variable store.

use vstd::prelude::*;

verus! {

/// A value as a mathematical object.
pub ghost enum Val {
    I(int),
    S(Seq<char>),
}

/// A value of the language: an integer or a piece of text.
#[derive(Clone, Debug, PartialEq)]
pub enum Value {
    Int(i32),
    Str(String),
}

impl View for Value {
    type V = Val;

    open spec fn view(&self) -> Val {
        match self {
            Value::Int(i) => Val::I(*i as int),
            Value::Str(s) => Val::S(s@),
        }
    }
}

/// Whether two character vectors are equal.
pub fn same_chars(a: &Vec<char>, b: &Vec<char>) -> (r: bool)
    ensures
        r == (a@ == b@),
{
    if a.len() != b.len() {
        return false;
    }
    let mut k: usize = 0;
    while k < a.len()
        invariant
            k <= a.len() == b.len(),
            forall|m: int| 0 <= m < k ==> a@[m] == b@[m],
        decreases a.len() - k,
    {
        if a[k] != b[k] {
            return false;
        }
        k = k + 1;
    }
    assert(a@ =~= b@);
    true
}

/// The map that a list of bindings stands for: later bindings win.
pub open spec fn bindings_model(e: Seq<(Vec<char>, Value)>) -> Map<Seq<char>, Val>
    decreases e.len(),
{
    if e.len() == 0 {
        Map::empty()
    } else {
        bindings_model(e.drop_last()).insert(e.last().0@, e.last().1@)
    }
}

/// The variable store: a map from names to values.
pub struct Vars {
    entries: Vec<(Vec<char>, Value)>,
}

impl View for Vars {
    type V = Map<Seq<char>, Val>;

    closed spec fn view(&self) -> Map<Seq<char>, Val> {
        bindings_model(self.entries@)
    }
}

impl Vars {
    /// An empty store.
    pub fn new() -> (r: Vars)
        ensures
            r@ == Map::<Seq<char>, Val>::empty(),
    {
        Vars { entries: Vec::new() }
    }

    /// Binds `name` to `v`, replacing any earlier value and its type.
    pub fn assign(&mut self, name: Vec<char>, v: Value)
        ensures
            final(self)@ == old(self)@.insert(name@, v@),
    {
        self.entries.push((name, v));
        assert(self.entries@.drop_last() =~= old(self).entries@);
    }

    /// The value bound to `name`, if any.
    pub fn get(&self, name: &Vec<char>) -> (r: Option<&Value>)
        ensures
            match r {
                Some(v) => self@.contains_key(name@) && self@[name@] == v@,
                None => !self@.contains_key(name@),
            },
    {
        let mut i = self.entries.len();
        assert(self.entries@.take(i as int) =~= self.entries@);
        while i > 0
            invariant
                i <= self.entries.len(),
                self@.contains_key(name@) == bindings_model(self.entries@.take(i as int)).contains_key(name@),
                self@.contains_key(name@) ==> self@[name@] == bindings_model(self.entries@.take(i as int))[name@],
                forall|m: int| i <= m < self.entries.len() ==> #[trigger] self.entries@[m].0@ != name@,
            decreases i,
        {
            let ghost pre = self.entries@.take(i as int);
            assert(pre.drop_last() =~= self.entries@.take(i - 1));
            if same_chars(&self.entries[i - 1].0, name) {
                return Some(&self.entries[i - 1].1);
            }
            i = i - 1;
        }
        None
    }
}

} // verus!
