use vstd::prelude::*;

verus! {

/// A structured value: the editable substrate of recipe generation.
/// Numbers are carried as their decimal text; nothing here computes with them.
#[derive(Debug, PartialEq)]
pub enum Value {
    Null,
    Bool(bool),
    Number(String),
    String(String),
    Array(Vec<Value>),
    Object(Vec<(String, Value)>),
}

/// The mathematical model of a [`Value`].
pub ghost enum Tree {
    Null,
    Bool(bool),
    Number(Seq<char>),
    Str(Seq<char>),
    Array(Seq<Tree>),
    Object(Seq<(Seq<char>, Tree)>),
}

pub open spec fn view_seq(s: Seq<Value>) -> Seq<Tree>
    decreases s,
{
    if s.len() == 0 {
        Seq::empty()
    } else {
        view_seq(s.drop_last()).push(value_view(s.last()))
    }
}

pub open spec fn view_entries(s: Seq<(String, Value)>) -> Seq<(Seq<char>, Tree)>
    decreases s,
{
    if s.len() == 0 {
        Seq::empty()
    } else {
        view_entries(s.drop_last()).push((s.last().0@, value_view(s.last().1)))
    }
}

pub open spec fn value_view(v: Value) -> Tree
    decreases v,
{
    match v {
        Value::Null => Tree::Null,
        Value::Bool(b) => Tree::Bool(b),
        Value::Number(n) => Tree::Number(n@),
        Value::String(s) => Tree::Str(s@),
        Value::Array(a) => Tree::Array(view_seq(a@)),
        Value::Object(es) => Tree::Object(view_entries(es@)),
    }
}

impl View for Value {
    type V = Tree;

    open spec fn view(&self) -> Tree {
        value_view(*self)
    }
}

pub proof fn lemma_view_seq(s: Seq<Value>)
    ensures
        view_seq(s).len() == s.len(),
        forall|i: int| 0 <= i < s.len() ==> #[trigger] view_seq(s)[i] == s[i]@,
    decreases s.len(),
{
    if s.len() > 0 {
        lemma_view_seq(s.drop_last());
    }
}

pub proof fn lemma_view_entries(s: Seq<(String, Value)>)
    ensures
        view_entries(s).len() == s.len(),
        forall|i: int|
            0 <= i < s.len() ==> #[trigger] view_entries(s)[i] == (s[i].0@, s[i].1@),
    decreases s.len(),
{
    if s.len() > 0 {
        lemma_view_entries(s.drop_last());
    }
}

/// The number of nodes of a value; it bounds the depth of recursion over it.
pub open spec fn size(v: Value) -> nat
    decreases v,
{
    match v {
        Value::Array(a) => 1 + size_seq(a@),
        Value::Object(es) => 1 + size_entries(es@),
        _ => 1,
    }
}

pub open spec fn size_seq(s: Seq<Value>) -> nat
    decreases s,
{
    if s.len() == 0 {
        0
    } else {
        size_seq(s.drop_last()) + size(s.last())
    }
}

pub open spec fn size_entries(s: Seq<(String, Value)>) -> nat
    decreases s,
{
    if s.len() == 0 {
        0
    } else {
        size_entries(s.drop_last()) + size(s.last().1)
    }
}

pub proof fn lemma_size_seq(s: Seq<Value>, i: int)
    requires
        0 <= i < s.len(),
    ensures
        size(s[i]) <= size_seq(s),
    decreases s.len(),
{
    if i < s.len() - 1 {
        lemma_size_seq(s.drop_last(), i);
    }
}

pub proof fn lemma_size_entries(s: Seq<(String, Value)>, i: int)
    requires
        0 <= i < s.len(),
    ensures
        size(s[i].1) <= size_entries(s),
    decreases s.len(),
{
    if i < s.len() - 1 {
        lemma_size_entries(s.drop_last(), i);
    }
}

impl Clone for Value {
    fn clone(&self) -> Self {
        self.deep_clone()
    }
}

impl Value {
    /// A deep copy of the value.
    pub fn deep_clone(&self) -> (r: Value)
        ensures
            r@ == self@,
        decreases size(*self),
    {
        match self {
            Value::Null => Value::Null,
            Value::Bool(b) => Value::Bool(*b),
            Value::Number(n) => Value::Number(n.clone()),
            Value::String(s) => Value::String(s.clone()),
            Value::Array(a) => {
                let mut out: Vec<Value> = Vec::new();
                let mut i: usize = 0;
                while i < a.len()
                    invariant
                        i <= a.len(),
                        *self == Value::Array(*a),
                        out@.len() == i,
                        forall|j: int| 0 <= j < i ==> #[trigger] out@[j]@ == a@[j]@,
                    decreases a.len() - i,
                {
                    proof {
                        lemma_size_seq(a@, i as int);
                    }
                    let c = a[i].deep_clone();
                    out.push(c);
                    i += 1;
                }
                proof {
                    lemma_view_seq(a@);
                    lemma_view_seq(out@);
                    assert(view_seq(out@) =~= view_seq(a@));
                }
                Value::Array(out)
            },
            Value::Object(es) => {
                let mut out: Vec<(String, Value)> = Vec::new();
                let mut i: usize = 0;
                while i < es.len()
                    invariant
                        i <= es.len(),
                        *self == Value::Object(*es),
                        out@.len() == i,
                        forall|j: int|
                            0 <= j < i ==> #[trigger] out@[j].0@ == es@[j].0@ && out@[j].1@
                                == es@[j].1@,
                    decreases es.len() - i,
                {
                    proof {
                        lemma_size_entries(es@, i as int);
                    }
                    let k = es[i].0.clone();
                    let c = es[i].1.deep_clone();
                    out.push((k, c));
                    i += 1;
                }
                proof {
                    lemma_view_entries(es@);
                    lemma_view_entries(out@);
                    assert(view_entries(out@) =~= view_entries(es@));
                }
                Value::Object(out)
            },
        }
    }
}

} // verus!

verus! {

/// No two entries share a key.
pub open spec fn unique_keys(es: Seq<(Seq<char>, Tree)>) -> bool {
    forall|i: int, j: int|
        0 <= i < es.len() && 0 <= j < es.len() && i != j ==> (#[trigger] es[i]).0 != (
        #[trigger] es[j]).0
}

/// The invariant of a value tree: the keys of every object in it are unique.
pub open spec fn well_formed(t: Tree) -> bool
    decreases t,
{
    match t {
        Tree::Array(a) => all_well_formed(a),
        Tree::Object(es) => unique_keys(es) && entries_well_formed(es),
        _ => true,
    }
}

pub open spec fn all_well_formed(s: Seq<Tree>) -> bool
    decreases s,
{
    s.len() == 0 || (all_well_formed(s.drop_last()) && well_formed(s.last()))
}

pub open spec fn entries_well_formed(es: Seq<(Seq<char>, Tree)>) -> bool
    decreases es,
{
    es.len() == 0 || (entries_well_formed(es.drop_last()) && well_formed(es.last().1))
}

pub proof fn lemma_all_well_formed(s: Seq<Tree>)
    ensures
        all_well_formed(s) <==> forall|i: int| 0 <= i < s.len() ==> #[trigger] well_formed(s[i]),
    decreases s.len(),
{
    if s.len() > 0 {
        lemma_all_well_formed(s.drop_last());
        if forall|i: int| 0 <= i < s.len() ==> #[trigger] well_formed(s[i]) {
            assert forall|i: int| 0 <= i < s.drop_last().len() implies #[trigger] well_formed(s.drop_last()[i]) by {
                assert(s.drop_last()[i] == s[i]);
            }
            assert(well_formed(s[s.len() - 1]));
        }
        if all_well_formed(s) {
            assert forall|i: int| 0 <= i < s.len() implies #[trigger] well_formed(s[i]) by {
                if i < s.len() - 1 {
                    assert(s.drop_last()[i] == s[i]);
                }
            }
        }
    }
}

pub proof fn lemma_entries_well_formed(es: Seq<(Seq<char>, Tree)>)
    ensures
        entries_well_formed(es) <==> forall|i: int| 0 <= i < es.len() ==> #[trigger] well_formed(es[i].1),
    decreases es.len(),
{
    if es.len() > 0 {
        lemma_entries_well_formed(es.drop_last());
        if forall|i: int| 0 <= i < es.len() ==> #[trigger] well_formed(es[i].1) {
            assert forall|i: int| 0 <= i < es.drop_last().len() implies #[trigger] well_formed(es.drop_last()[i].1) by {
                assert(es.drop_last()[i] == es[i]);
            }
            assert(well_formed(es[es.len() - 1].1));
        }
        if entries_well_formed(es) {
            assert forall|i: int| 0 <= i < es.len() implies #[trigger] well_formed(es[i].1) by {
                if i < es.len() - 1 {
                    assert(es.drop_last()[i] == es[i]);
                }
            }
        }
    }
}

} // verus!
