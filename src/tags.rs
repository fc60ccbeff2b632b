use vstd::prelude::*;
use vstd::string::*;
use crate::edit::{find_key, key_pos, lemma_key_pos_bounds};
use crate::error::{Error, Fault};
use crate::value::{Tree, Value, lemma_view_entries, lemma_view_seq, view_entries, view_seq};

verus! {

/// A named axis of variation and its raw values; a raw value that starts with `@` refers to
/// a static property.
#[derive(Debug, Clone, PartialEq)]
pub struct Tag {
    /// The name of the tag.
    pub name: String,
    /// The raw values of the tag.
    pub values: Vec<String>,
}

pub open spec fn strings_view(v: Seq<String>) -> Seq<Seq<char>> {
    v.map_values(|s: String| s@)
}

/// The strings of an array static property; the first element that is no string fails.
pub open spec fn array_strings(a: Seq<Tree>, key: Seq<char>) -> Result<Seq<Seq<char>>, Fault>
    decreases a.len(),
{
    if a.len() == 0 {
        Ok(Seq::empty())
    } else {
        match array_strings(a.drop_last(), key) {
            Err(f) => Err(f),
            Ok(p) => match a.last() {
                Tree::Str(s) => Ok(p.push(s)),
                other => Err(Fault::InvalidStaticProperty { prop: key, value: other }),
            },
        }
    }
}

/// The concrete values of one raw tag value: a literal stands for itself, `@key` for the
/// string or the strings of the static property `key`, the text after the first `@`.
pub open spec fn resolve_value(raw: Seq<char>, statics: Seq<(Seq<char>, Tree)>) -> Result<
    Seq<Seq<char>>,
    Fault,
> {
    if raw.len() == 0 || raw[0] != '@' {
        Ok(seq![raw])
    } else {
        let key = raw.skip(1);
        if key.len() == 0 {
            Err(Fault::InvalidStaticProperty { prop: key, value: Tree::Str(raw) })
        } else {
            let i = key_pos(statics, key);
            if i < 0 {
                Err(Fault::UnknownStaticProperty(key))
            } else {
                match statics[i].1 {
                    Tree::Str(s) => Ok(seq![s]),
                    Tree::Array(a) => array_strings(a, key),
                    other => Err(Fault::InvalidStaticProperty { prop: key, value: other }),
                }
            }
        }
    }
}

/// The concrete values of a list of raw values, in order and with repetitions kept.
pub open spec fn resolve_values(raws: Seq<Seq<char>>, statics: Seq<(Seq<char>, Tree)>) -> Result<
    Seq<Seq<char>>,
    Fault,
>
    decreases raws.len(),
{
    if raws.len() == 0 {
        Ok(Seq::empty())
    } else {
        match resolve_values(raws.drop_last(), statics) {
            Err(f) => Err(f),
            Ok(p) => match resolve_value(raws.last(), statics) {
                Ok(vs) => Ok(p + vs),
                Err(f) => Err(f),
            },
        }
    }
}

fn array_strings_exec(a: &Vec<Value>, key: &String) -> (r: Result<Vec<String>, Error>)
    ensures
        match array_strings(view_seq(a@), key@) {
            Ok(vs) => r is Ok && strings_view(r->Ok_0@) == vs,
            Err(f) => r is Err && r->Err_0@ == f,
        },
{
    let ghost av = view_seq(a@);
    proof {
        lemma_view_seq(a@);
        assert(av.take(0) =~= Seq::<Tree>::empty());
    }
    let mut out: Vec<String> = Vec::new();
    assert(strings_view(out@) =~= Seq::<Seq<char>>::empty());
    let mut i: usize = 0;
    while i < a.len()
        invariant
            i <= a@.len(),
            av == view_seq(a@),
            av.len() == a@.len(),
            forall|j: int| 0 <= j < a@.len() ==> #[trigger] av[j] == a@[j]@,
            array_strings(av.take(i as int), key@) == Ok::<Seq<Seq<char>>, Fault>(
                strings_view(out@),
            ),
        decreases a.len() - i,
    {
        assert(av.take(i + 1).drop_last() =~= av.take(i as int));
        assert(av.take(i + 1).last() == a@[i as int]@);
        match &a[i] {
            Value::String(s) => {
                let ghost before = out@;
                out.push(s.clone());
                assert(strings_view(out@) =~= strings_view(before).push(s@));
            },
            other => {
                proof {
                    lemma_array_strings_err(av, key@, i + 1);
                }
                return Err(Error::InvalidStaticProperty { prop: key.clone(), value: other.deep_clone() });
            },
        }
        i += 1;
    }
    assert(av.take(i as int) =~= av);
    Ok(out)
}

proof fn lemma_array_strings_err(a: Seq<Tree>, key: Seq<char>, m: int)
    requires
        0 <= m <= a.len(),
        array_strings(a.take(m), key) is Err,
    ensures
        array_strings(a, key) == array_strings(a.take(m), key),
    decreases a.len(),
{
    if m == a.len() {
        assert(a.take(m) =~= a);
    } else {
        assert(a.drop_last().take(m) =~= a.take(m));
        lemma_array_strings_err(a.drop_last(), key, m);
    }
}

/// Resolves one raw tag value against the static properties.
pub fn resolve_tag_value(raw: &String, statics: &Vec<(String, Value)>) -> (r: Result<Vec<String>, Error>)
    ensures
        match resolve_value(raw@, view_entries(statics@)) {
            Ok(vs) => r is Ok && strings_view(r->Ok_0@) == vs,
            Err(f) => r is Err && r->Err_0@ == f,
        },
{
    let s = raw.as_str();
    if s.unicode_len() == 0 || s.get_char(0) != '@' {
        let mut out: Vec<String> = Vec::new();
        out.push(raw.clone());
        assert(strings_view(out@) =~= seq![raw@]);
        return Ok(out);
    }
    let n = s.unicode_len();
    let key = String::from_str(s.substring_char(1, n));
    assert(key@ =~= raw@.skip(1));
    if key.as_str().unicode_len() == 0 {
        return Err(Error::InvalidStaticProperty { prop: key, value: Value::String(raw.clone()) });
    }
    let pos = find_key(statics, &key);
    proof {
        lemma_view_entries(statics@);
        lemma_key_pos_bounds(view_entries(statics@), key@);
    }
    match pos {
        None => Err(Error::UnknownStaticProperty(key)),
        Some(i) => match &statics[i].1 {
            Value::String(v) => {
                let mut out: Vec<String> = Vec::new();
                out.push(v.clone());
                assert(strings_view(out@) =~= seq![v@]);
                Ok(out)
            },
            Value::Array(a) => array_strings_exec(a, &key),
            other => Err(Error::InvalidStaticProperty { prop: key, value: other.deep_clone() }),
        },
    }
}

/// Resolves every value of a tag, in order: the tag's name with its concrete values.
pub fn resolve_tag(tag: &Tag, statics: &Vec<(String, Value)>) -> (r: Result<(String, Vec<String>), Error>)
    ensures
        match resolve_values(strings_view(tag.values@), view_entries(statics@)) {
            Ok(vs) => r is Ok && r->Ok_0.0@ == tag.name@ && strings_view(r->Ok_0.1@) == vs,
            Err(f) => r is Err && r->Err_0@ == f,
        },
{
    let ghost raws = strings_view(tag.values@);
    assert(raws.take(0) =~= Seq::<Seq<char>>::empty());
    let mut out: Vec<String> = Vec::new();
    assert(strings_view(out@) =~= Seq::<Seq<char>>::empty());
    let mut i: usize = 0;
    while i < tag.values.len()
        invariant
            i <= tag.values@.len(),
            raws == strings_view(tag.values@),
            resolve_values(raws.take(i as int), view_entries(statics@)) == Ok::<Seq<Seq<char>>, Fault>(
                strings_view(out@),
            ),
        decreases tag.values.len() - i,
    {
        assert(raws.take(i + 1).drop_last() =~= raws.take(i as int));
        assert(raws.take(i + 1).last() == tag.values@[i as int]@);
        match resolve_tag_value(&tag.values[i], statics) {
            Err(e) => {
                proof {
                    lemma_resolve_values_err(raws, view_entries(statics@), i + 1);
                }
                return Err(e);
            },
            Ok(vs) => {
                let ghost before = out@;
                let ghost added = vs@;
                let mut vs = vs;
                out.append(&mut vs);
                assert(strings_view(out@) =~= strings_view(before) + strings_view(added));
            },
        }
        i += 1;
    }
    assert(raws.take(i as int) =~= raws);
    Ok((tag.name.clone(), out))
}

proof fn lemma_resolve_values_err(raws: Seq<Seq<char>>, statics: Seq<(Seq<char>, Tree)>, m: int)
    requires
        0 <= m <= raws.len(),
        resolve_values(raws.take(m), statics) is Err,
    ensures
        resolve_values(raws, statics) == resolve_values(raws.take(m), statics),
    decreases raws.len(),
{
    if m == raws.len() {
        assert(raws.take(m) =~= raws);
    } else {
        assert(raws.drop_last().take(m) =~= raws.take(m));
        lemma_resolve_values_err(raws.drop_last(), statics, m);
    }
}

} // verus!
