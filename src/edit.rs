use vstd::prelude::*;
use crate::error::{Error, Fault};
use crate::path::{DotPath, DotToken, Tok, lemma_items_qty_tokens, lemma_split_nonempty, path_tokens, split_on, tokens_view};
use crate::value::{
    Tree, Value, lemma_all_well_formed, lemma_entries_well_formed, lemma_view_entries,
    lemma_view_seq, unique_keys, view_entries, view_seq, well_formed,
};

verus! {

/// The position of the first entry with key `k`, or -1.
pub open spec fn key_pos(es: Seq<(Seq<char>, Tree)>, k: Seq<char>) -> int
    decreases es.len(),
{
    if es.len() == 0 {
        -1
    } else {
        let p = key_pos(es.drop_last(), k);
        if p >= 0 {
            p
        } else if es.last().0 == k {
            es.len() - 1
        } else {
            -1
        }
    }
}

/// `es` with `k` bound to `t`: the entry is replaced where the key is present, else appended.
pub open spec fn obj_set(es: Seq<(Seq<char>, Tree)>, k: Seq<char>, t: Tree) -> Seq<(Seq<char>, Tree)> {
    let p = key_pos(es, k);
    if p >= 0 {
        es.update(p, (k, t))
    } else {
        es.push((k, t))
    }
}

/// `es` without the entry for `k`; unchanged where there is none.
pub open spec fn obj_del(es: Seq<(Seq<char>, Tree)>, k: Seq<char>) -> Seq<(Seq<char>, Tree)> {
    let p = key_pos(es, k);
    if p >= 0 {
        es.remove(p)
    } else {
        es
    }
}

pub open spec fn entry_values(es: Seq<(Seq<char>, Tree)>) -> Seq<Tree> {
    es.map_values(|e: (Seq<char>, Tree)| e.1)
}

pub open spec fn with_values(es: Seq<(Seq<char>, Tree)>, vs: Seq<Tree>) -> Seq<(Seq<char>, Tree)> {
    Seq::new(es.len(), |i: int| (es[i].0, vs[i]))
}

/// The error for a step that needs an object at the current location.
pub open spec fn expected_object(act: Option<Tree>, path: Seq<char>, prop: Seq<char>) -> Fault {
    if act is Some {
        Fault::ExpectedObjectToSetProperty { path, prop }
    } else {
        Fault::ExpectedObjectToRemoveProperty { path, prop }
    }
}

/// The error for a step that needs an array at the current location.
pub open spec fn expected_array(act: Option<Tree>, path: Seq<char>, index: usize) -> Fault {
    if act is Some {
        Fault::ExpectedArrayToSetIndex { path, index }
    } else {
        Fault::ExpectedArrayToRemoveIndex { path, index }
    }
}

/// The error for a wildcard that meets a value with no children.
pub open spec fn expected_container(act: Option<Tree>, path: Seq<char>, value: Tree) -> Fault {
    if act is Some {
        Fault::ExpectedWildcardToSetProperty { path, value }
    } else {
        Fault::ExpectedWildcardToRemoveProperty { path, value }
    }
}

/// Applies the tokens `toks[k..]` to `t`. The action at the addressed location puts a value
/// there (`Some`) or takes the location out (`None`). A wildcard applies the remaining tokens
/// to every child in order and fails with the first child that fails; no remaining tokens
/// leave a value unchanged. `path` is the path text, reported in errors.
pub open spec fn edit_at(
    t: Tree,
    toks: Seq<Tok>,
    k: int,
    act: Option<Tree>,
    path: Seq<char>,
) -> Result<Tree, Fault>
    decreases toks.len() - k, 0int,
{
    if k < 0 || k >= toks.len() {
        Ok(t)
    } else {
        let last = k + 1 == toks.len();
        match toks[k] {
            Tok::Property(p) => match t {
                Tree::Object(es) => {
                    if last {
                        match act {
                            Some(n) => Ok(Tree::Object(obj_set(es, p, n))),
                            None => Ok(Tree::Object(obj_del(es, p))),
                        }
                    } else {
                        let i = key_pos(es, p);
                        if i < 0 {
                            Err(Fault::UnknownPropertyInObjectPath { path, prop: p })
                        } else {
                            match edit_at(es[i].1, toks, k + 1, act, path) {
                                Ok(c) => Ok(Tree::Object(es.update(i, (p, c)))),
                                Err(f) => Err(f),
                            }
                        }
                    }
                },
                _ => Err(expected_object(act, path, p)),
            },
            Tok::Index(n) => match t {
                Tree::Array(a) => {
                    if n >= a.len() {
                        Err(Fault::IndexOutOfBounds { index: n, len: a.len() as usize, path })
                    } else if last {
                        match act {
                            Some(x) => Ok(Tree::Array(a.update(n as int, x))),
                            None => Ok(Tree::Array(a.remove(n as int))),
                        }
                    } else {
                        match edit_at(a[n as int], toks, k + 1, act, path) {
                            Ok(c) => Ok(Tree::Array(a.update(n as int, c))),
                            Err(f) => Err(f),
                        }
                    }
                },
                _ => Err(expected_array(act, path, n)),
            },
            Tok::Wildcard => match t {
                Tree::Array(a) => match fan_out(a, toks, k + 1, act, path) {
                    Ok(b) => Ok(Tree::Array(b)),
                    Err(f) => Err(f),
                },
                Tree::Object(es) => match fan_out(entry_values(es), toks, k + 1, act, path) {
                    Ok(b) => Ok(Tree::Object(with_values(es, b))),
                    Err(f) => Err(f),
                },
                _ => Err(expected_container(act, path, t)),
            },
        }
    }
}

/// Applies `toks[k..]` to each of `cs` in order; the first failure is the result.
pub open spec fn fan_out(
    cs: Seq<Tree>,
    toks: Seq<Tok>,
    k: int,
    act: Option<Tree>,
    path: Seq<char>,
) -> Result<Seq<Tree>, Fault>
    decreases toks.len() - k, cs.len(),
{
    if cs.len() == 0 {
        Ok(Seq::empty())
    } else {
        match fan_out(cs.drop_last(), toks, k, act, path) {
            Err(f) => Err(f),
            Ok(p) => match edit_at(cs.last(), toks, k, act, path) {
                Ok(c) => Ok(p.push(c)),
                Err(f) => Err(f),
            },
        }
    }
}

/// What a failed edit leaves behind: the steps before the failing one stand, with no
/// rollback. Along a path without wildcards that is the tree unchanged; under a wildcard the
/// children before the failing one are edited, the failing one is left as its own failed edit
/// left it, and the children after it are untouched.
pub open spec fn edit_left(
    t: Tree,
    toks: Seq<Tok>,
    k: int,
    act: Option<Tree>,
    path: Seq<char>,
) -> Tree
    decreases toks.len() - k, 0int,
{
    if k < 0 || k + 1 >= toks.len() {
        t
    } else {
        match (toks[k], t) {
            (Tok::Property(p), Tree::Object(es)) => {
                let i = key_pos(es, p);
                if i < 0 {
                    t
                } else {
                    Tree::Object(es.update(i, (p, edit_left(es[i].1, toks, k + 1, act, path))))
                }
            },
            (Tok::Index(n), Tree::Array(a)) => {
                if n >= a.len() {
                    t
                } else {
                    Tree::Array(a.update(n as int, edit_left(a[n as int], toks, k + 1, act, path)))
                }
            },
            (Tok::Wildcard, Tree::Array(a)) => Tree::Array(fan_left(a, toks, k + 1, act, path)),
            (Tok::Wildcard, Tree::Object(es)) => Tree::Object(
                with_values(es, fan_left(entry_values(es), toks, k + 1, act, path)),
            ),
            _ => t,
        }
    }
}

/// What a failed fan-out leaves of `cs`: see [`edit_left`].
pub open spec fn fan_left(
    cs: Seq<Tree>,
    toks: Seq<Tok>,
    k: int,
    act: Option<Tree>,
    path: Seq<char>,
) -> Seq<Tree>
    decreases toks.len() - k, cs.len(),
{
    if cs.len() == 0 {
        Seq::empty()
    } else {
        match fan_out(cs.drop_last(), toks, k, act, path) {
            Ok(p) => p.push(edit_left(cs.last(), toks, k, act, path)),
            Err(_) => fan_left(cs.drop_last(), toks, k, act, path).push(cs.last()),
        }
    }
}

proof fn lemma_fan_left_at(cs: Seq<Tree>, toks: Seq<Tok>, k: int, act: Option<Tree>, path: Seq<char>, i: int, done: Seq<Tree>)
    requires
        0 <= i < cs.len(),
        fan_out(cs.take(i), toks, k, act, path) == Ok::<Seq<Tree>, Fault>(done),
        edit_at(cs[i], toks, k, act, path) is Err,
    ensures
        fan_left(cs, toks, k, act, path) == done.push(edit_left(cs[i], toks, k, act, path)) + cs.skip(i + 1),
    decreases cs.len(),
{
    if cs.len() == i + 1 {
        assert(cs.drop_last() =~= cs.take(i));
        assert(cs.skip(i + 1) =~= Seq::<Tree>::empty());
        assert(done.push(edit_left(cs[i], toks, k, act, path)) + cs.skip(i + 1) =~= done.push(edit_left(cs[i], toks, k, act, path)));
    } else {
        let pre = cs.drop_last();
        assert(pre.take(i) =~= cs.take(i));
        assert(pre[i] == cs[i]);
        lemma_fan_left_at(pre, toks, k, act, path, i, done);
        assert(pre.take(i + 1).drop_last() =~= pre.take(i));
        assert(pre.take(i + 1).last() == cs[i]);
        lemma_fan_out_err(pre, toks, k, act, path, i + 1);
        assert(done.push(edit_left(cs[i], toks, k, act, path)) + cs.skip(i + 1) =~= (done.push(edit_left(cs[i], toks, k, act, path)) + pre.skip(i + 1)).push(cs.last()));
    }
}

/// The outcome `r` of an edit, with `after` the value left behind, is the one that
/// [`edit_at`] gives; on failure what is left is [`edit_left`].
pub open spec fn edit_outcome(
    before: Tree,
    after: Tree,
    r: Result<(), Error>,
    toks: Seq<Tok>,
    k: int,
    act: Option<Tree>,
    path: Seq<char>,
) -> bool {
    match edit_at(before, toks, k, act, path) {
        Ok(t) => r is Ok && after == t,
        Err(f) => r is Err && r->Err_0@ == f && after == edit_left(before, toks, k, act, path),
    }
}

pub open spec fn action_view(act: &Option<Value>) -> Option<Tree> {
    match act {
        Some(v) => Some(v@),
        None => None,
    }
}

proof fn lemma_key_pos_prefix(es: Seq<(Seq<char>, Tree)>, k: Seq<char>, m: int)
    requires
        0 <= m <= es.len(),
        key_pos(es.take(m), k) >= 0,
    ensures
        key_pos(es, k) == key_pos(es.take(m), k),
    decreases es.len() - m,
{
    if m < es.len() {
        assert(es.take(m + 1).drop_last() =~= es.take(m));
        lemma_key_pos_prefix(es, k, m + 1);
    } else {
        assert(es.take(m) =~= es);
    }
}

pub proof fn lemma_key_pos_bounds(es: Seq<(Seq<char>, Tree)>, k: Seq<char>)
    ensures
        -1 <= key_pos(es, k) < es.len(),
        key_pos(es, k) >= 0 ==> es[key_pos(es, k)].0 == k,
        key_pos(es, k) < 0 ==> forall|j: int| 0 <= j < es.len() ==> (#[trigger] es[j]).0 != k,
    decreases es.len(),
{
    if es.len() > 0 {
        lemma_key_pos_bounds(es.drop_last(), k);
        if key_pos(es.drop_last(), k) < 0 {
            assert forall|j: int| 0 <= j < es.len() - 1 implies (#[trigger] es[j]).0 != k by {
                assert(es[j] == es.drop_last()[j]);
            }
        }
    }
}

/// The position of the first entry with key `k`.
pub fn find_key(es: &Vec<(String, Value)>, k: &String) -> (r: Option<usize>)
    ensures
        match r {
            Some(i) => i == key_pos(view_entries(es@), k@),
            None => key_pos(view_entries(es@), k@) < 0,
        },
{
    let ghost ev = view_entries(es@);
    proof {
        lemma_view_entries(es@);
        assert(ev.take(0) =~= Seq::<(Seq<char>, Tree)>::empty());
    }
    let mut i: usize = 0;
    while i < es.len()
        invariant
            i <= es.len(),
            ev == view_entries(es@),
            ev.len() == es@.len(),
            forall|j: int| 0 <= j < es@.len() ==> #[trigger] ev[j] == (es@[j].0@, es@[j].1@),
            key_pos(ev.take(i as int), k@) < 0,
        decreases es.len() - i,
    {
        assert(ev.take(i + 1).drop_last() =~= ev.take(i as int));
        if es[i].0 == *k {
            proof {
                lemma_key_pos_prefix(ev, k@, i + 1);
            }
            return Some(i);
        }
        i += 1;
    }
    assert(ev.take(i as int) =~= ev);
    None
}

} // verus!

verus! {

proof fn lemma_fan_out_err(cs: Seq<Tree>, toks: Seq<Tok>, k: int, act: Option<Tree>, path: Seq<char>, m: int)
    requires
        0 <= m <= cs.len(),
        fan_out(cs.take(m), toks, k, act, path) is Err,
    ensures
        fan_out(cs, toks, k, act, path) == fan_out(cs.take(m), toks, k, act, path),
    decreases cs.len(),
{
    if m == cs.len() {
        assert(cs.take(m) =~= cs);
    } else {
        assert(cs.drop_last().take(m) =~= cs.take(m));
        lemma_fan_out_err(cs.drop_last(), toks, k, act, path, m);
    }
}

proof fn lemma_fan_out_len(cs: Seq<Tree>, toks: Seq<Tok>, k: int, act: Option<Tree>, path: Seq<char>)
    ensures
        fan_out(cs, toks, k, act, path) is Ok ==> fan_out(cs, toks, k, act, path)->Ok_0.len()
            == cs.len(),
    decreases cs.len(),
{
    if cs.len() > 0 {
        lemma_fan_out_len(cs.drop_last(), toks, k, act, path);
    }
}

/// Applies `toks[k..]` to `v` in place, as [`edit_at`] states.
fn edit_value(
    v: &mut Value,
    toks: &Vec<DotToken>,
    k: usize,
    act: &Option<Value>,
    path: &String,
) -> (r: Result<(), Error>)
    requires
        k <= toks.len(),
    ensures
        edit_outcome(old(v)@, final(v)@, r, tokens_view(toks@), k as int, action_view(act), path@),
    decreases toks.len() - k, 1int,
{
    if k >= toks.len() {
        return Ok(());
    }
    match &toks[k] {
        DotToken::Property(p) => edit_property(v, toks, k, p, act, path),
        DotToken::Index(n) => edit_index(v, toks, k, *n, act, path),
        DotToken::Wildcard => edit_children(v, toks, k, act, path),
    }
}

fn expected_object_error(act: &Option<Value>, path: &String, prop: &String) -> (e: Error)
    ensures
        e@ == expected_object(action_view(act), path@, prop@),
{
    match act {
        Some(_) => Error::ExpectedObjectToSetProperty { path: path.clone(), prop: prop.clone() },
        None => Error::ExpectedObjectToRemoveProperty { path: path.clone(), prop: prop.clone() },
    }
}

fn edit_property(
    v: &mut Value,
    toks: &Vec<DotToken>,
    k: usize,
    p: &String,
    act: &Option<Value>,
    path: &String,
) -> (r: Result<(), Error>)
    requires
        k < toks.len(),
        toks@[k as int] == DotToken::Property(*p),
    ensures
        edit_outcome(old(v)@, final(v)@, r, tokens_view(toks@), k as int, action_view(act), path@),
    decreases toks.len() - k, 0int,
{
    let last = k + 1 == toks.len();
    assert(tokens_view(toks@)[k as int] == Tok::Property(p@));
    match v {
        Value::Object(es) => {
            let ghost ev = view_entries(es@);
            let pos = find_key(es, p);
            proof {
                lemma_view_entries(es@);
                lemma_key_pos_bounds(ev, p@);
            }
            if last {
                match act {
                    Some(nv) => {
                        let c = nv.deep_clone();
                        match pos {
                            Some(i) => {
                                let key = es[i].0.clone();
                                es.set(i, (key, c));
                            },
                            None => {
                                es.push((p.clone(), c));
                            },
                        }
                    },
                    None => {
                        match pos {
                            Some(i) => {
                                es.remove(i);
                            },
                            None => {},
                        }
                    },
                }
                proof {
                    lemma_view_entries(es@);
                    let want = match action_view(act) {
                        Some(n) => obj_set(ev, p@, n),
                        None => obj_del(ev, p@),
                    };
                    assert(view_entries(es@) =~= want);
                }
                Ok(())
            } else {
                match pos {
                    None => Err(Error::UnknownPropertyInObjectPath { path: path.clone(), prop: p.clone() }),
                    Some(i) => {
                        let r = edit_value(&mut es[i].1, toks, k + 1, act, path);
                        proof {
                            lemma_view_entries(es@);
                            assert(view_entries(es@) =~= ev.update(i as int, (p@, es@[i as int].1@)));
                        }
                        r
                    },
                }
            }
        },
        _ => Err(expected_object_error(act, path, p)),
    }
}

fn edit_index(
    v: &mut Value,
    toks: &Vec<DotToken>,
    k: usize,
    n: usize,
    act: &Option<Value>,
    path: &String,
) -> (r: Result<(), Error>)
    requires
        k < toks.len(),
        toks@[k as int] == DotToken::Index(n),
    ensures
        edit_outcome(old(v)@, final(v)@, r, tokens_view(toks@), k as int, action_view(act), path@),
    decreases toks.len() - k, 0int,
{
    let last = k + 1 == toks.len();
    assert(tokens_view(toks@)[k as int] == Tok::Index(n));
    match v {
        Value::Array(a) => {
            let ghost av = view_seq(a@);
            proof {
                lemma_view_seq(a@);
            }
            if n >= a.len() {
                return Err(Error::IndexOutOfBounds { index: n, len: a.len(), path: path.clone() });
            }
            if last {
                match act {
                    Some(nv) => {
                        let c = nv.deep_clone();
                        a.set(n, c);
                    },
                    None => {
                        a.remove(n);
                    },
                }
                proof {
                    lemma_view_seq(a@);
                    let want = match action_view(act) {
                        Some(x) => av.update(n as int, x),
                        None => av.remove(n as int),
                    };
                    assert(view_seq(a@) =~= want);
                }
                Ok(())
            } else {
                let r = edit_value(&mut a[n], toks, k + 1, act, path);
                proof {
                    lemma_view_seq(a@);
                    assert(view_seq(a@) =~= av.update(n as int, a@[n as int]@));
                }
                r
            }
        },
        _ => match act {
            Some(_) => Err(Error::ExpectedArrayToSetIndex { path: path.clone(), index: n }),
            None => Err(Error::ExpectedArrayToRemoveIndex { path: path.clone(), index: n }),
        },
    }
}

} // verus!

verus! {

fn edit_children(
    v: &mut Value,
    toks: &Vec<DotToken>,
    k: usize,
    act: &Option<Value>,
    path: &String,
) -> (r: Result<(), Error>)
    requires
        k < toks.len(),
        toks@[k as int] == DotToken::Wildcard,
    ensures
        edit_outcome(old(v)@, final(v)@, r, tokens_view(toks@), k as int, action_view(act), path@),
    decreases toks.len() - k, 0int,
{
    let ghost tv = tokens_view(toks@);
    let ghost av_act = action_view(act);
    assert(tv[k as int] == Tok::Wildcard);
    match v {
        Value::Array(a) => {
            let ghost av = view_seq(a@);
            let ghost mut done: Seq<Tree> = Seq::empty();
            proof {
                lemma_view_seq(a@);
                assert(av.take(0) =~= Seq::<Tree>::empty());
            }
            let mut i: usize = 0;
            let mut failure: Option<Error> = None;
            while i < a.len()
                invariant
                    k < toks.len(),
                    tv == tokens_view(toks@),
                    av_act == action_view(act),
                    a@.len() == av.len(),
                    tv[k as int] == Tok::Wildcard,
                    old(v)@ == Tree::Array(av),
                    i <= a@.len(),
                    failure is Some ==> i == a@.len(),
                    failure is None ==> done.len() == i && fan_out(av.take(i as int), tv, k + 1, av_act, path@)
                        == Ok::<Seq<Tree>, Fault>(done) && (forall|j: int|
                        0 <= j < i ==> (#[trigger] a@[j])@ == done[j]) && (forall|j: int|
                        i <= j < a@.len() ==> (#[trigger] a@[j])@ == av[j]),
                    failure matches Some(e) ==> edit_at(old(v)@, tv, k as int, av_act, path@) == Err::<Tree, Fault>(e@)
                        && Tree::Array(view_seq(a@)) == edit_left(old(v)@, tv, k as int, av_act, path@),
                decreases a.len() - i,
            {
                assert(a@[i as int]@ == av[i as int]);
                let r = edit_value(&mut a[i], toks, k + 1, act, path);
                assert(av.take(i + 1).drop_last() =~= av.take(i as int));
                assert(av.take(i + 1).last() == av[i as int]);
                match r {
                    Err(e) => {
                        proof {
                            assert(fan_out(av.take(i + 1), tv, k + 1, av_act, path@) == Err::<Seq<Tree>, Fault>(e@));
                            lemma_fan_out_err(av, tv, k + 1, av_act, path@, i + 1);
                            assert(k + 1 < tv.len());
                            lemma_fan_left_at(av, tv, k + 1, av_act, path@, i as int, done);
                            assert(edit_left(old(v)@, tv, k as int, av_act, path@) == Tree::Array(
                                fan_left(av, tv, k + 1, av_act, path@),
                            ));
                            lemma_view_seq(a@);
                            assert(a@[i as int]@ == edit_left(av[i as int], tv, k + 1, av_act, path@));
                            assert(view_seq(a@) =~= done.push(edit_left(av[i as int], tv, k + 1, av_act, path@)) + av.skip(i + 1));
                            assert(Tree::Array(view_seq(a@)) == edit_left(old(v)@, tv, k as int, av_act, path@));
                        }
                        failure = Some(e);
                        i = a.len();
                    },
                    Ok(()) => {
                        proof {
                            done = done.push(a@[i as int]@);
                        }
                        i += 1;
                    },
                }
            }
            if let Some(e) = failure {
                return Err(e);
            }
            proof {
                lemma_view_seq(a@);
                assert(av.take(i as int) =~= av);
                assert(view_seq(a@) =~= done);
            }
            Ok(())
        },
        Value::Object(es) => {
            let ghost ev = view_entries(es@);
            let ghost cv = entry_values(ev);
            let ghost mut done: Seq<Tree> = Seq::empty();
            proof {
                lemma_view_entries(es@);
                assert(cv.take(0) =~= Seq::<Tree>::empty());
            }
            let mut i: usize = 0;
            let mut failure: Option<Error> = None;
            while i < es.len()
                invariant
                    k < toks.len(),
                    tv == tokens_view(toks@),
                    av_act == action_view(act),
                    es@.len() == ev.len(),
                    cv == entry_values(ev),
                    tv[k as int] == Tok::Wildcard,
                    old(v)@ == Tree::Object(ev),
                    i <= es@.len(),
                    failure is Some ==> i == es@.len(),
                    failure is None ==> done.len() == i && fan_out(cv.take(i as int), tv, k + 1, av_act, path@)
                        == Ok::<Seq<Tree>, Fault>(done) && (forall|j: int|
                        0 <= j < i ==> (#[trigger] es@[j]).1@ == done[j]) && (forall|j: int|
                        i <= j < es@.len() ==> (#[trigger] es@[j]).1@ == ev[j].1),
                    failure matches Some(e) ==> edit_at(old(v)@, tv, k as int, av_act, path@) == Err::<Tree, Fault>(e@)
                        && Tree::Object(view_entries(es@)) == edit_left(old(v)@, tv, k as int, av_act, path@),
                    forall|j: int| 0 <= j < es@.len() ==> (#[trigger] es@[j]).0@ == ev[j].0,
                decreases es.len() - i,
            {
                assert(es@[i as int].1@ == cv[i as int]);
                let r = edit_value(&mut es[i].1, toks, k + 1, act, path);
                assert(cv.take(i + 1).drop_last() =~= cv.take(i as int));
                assert(cv.take(i + 1).last() == cv[i as int]);
                match r {
                    Err(e) => {
                        proof {
                            assert(fan_out(cv.take(i + 1), tv, k + 1, av_act, path@) == Err::<Seq<Tree>, Fault>(e@));
                            lemma_fan_out_err(cv, tv, k + 1, av_act, path@, i + 1);
                            assert(k + 1 < tv.len());
                            lemma_fan_left_at(cv, tv, k + 1, av_act, path@, i as int, done);
                            assert(edit_left(old(v)@, tv, k as int, av_act, path@) == Tree::Object(
                                with_values(ev, fan_left(cv, tv, k + 1, av_act, path@)),
                            ));
                            lemma_view_entries(es@);
                            assert(view_entries(es@) =~= with_values(ev, done.push(edit_left(cv[i as int], tv, k + 1, av_act, path@)) + cv.skip(i + 1)));
                            assert(Tree::Object(view_entries(es@)) == edit_left(old(v)@, tv, k as int, av_act, path@));
                        }
                        failure = Some(e);
                        i = es.len();
                    },
                    Ok(()) => {
                        proof {
                            done = done.push(es@[i as int].1@);
                        }
                        i += 1;
                    },
                }
            }
            if let Some(e) = failure {
                return Err(e);
            }
            proof {
                lemma_view_entries(es@);
                assert(cv.take(i as int) =~= cv);
                assert(view_entries(es@) =~= with_values(ev, done));
            }
            Ok(())
        },
        _ => {
            let value = v.deep_clone();
            match act {
                Some(_) => Err(Error::ExpectedWildcardToSetProperty { path: path.clone(), value }),
                None => Err(Error::ExpectedWildcardToRemoveProperty { path: path.clone(), value }),
            }
        },
    }
}

} // verus!

verus! {

/// Deletes the location(s) that a path addresses.
#[derive(Debug, Clone, PartialEq)]
pub struct Remove(pub DotPath);

/// Creates or overwrites the location(s) that a path addresses with a value.
#[derive(Debug, Clone, PartialEq)]
pub struct Modify {
    /// The path to the location.
    pub path: DotPath,
    /// The new value for the location.
    pub value: Value,
}

impl Modify {
    /// Puts the value at every location that the path addresses.
    pub fn apply(&self, value: &mut Value) -> (r: Result<(), Error>)
        ensures
            edit_outcome(
                old(value)@,
                final(value)@,
                r,
                path_tokens(self.path.0@),
                0,
                Some(self.value@),
                self.path.0@,
            ),
    {
        let toks = self.path.tokenize();
        let act = Some(self.value.deep_clone());
        edit_value(value, &toks, 0, &act, &self.path.0)
    }
}

impl Remove {
    /// Removes every location that the path addresses. A missing property is no error; a
    /// missing index is.
    pub fn apply(&self, value: &mut Value) -> (r: Result<(), Error>)
        ensures
            edit_outcome(old(value)@, final(value)@, r, path_tokens(self.0.0@), 0, None, self.0.0@),
    {
        let toks = self.0.tokenize();
        edit_value(value, &toks, 0, &None, &self.0.0)
    }
}

pub proof fn lemma_key_pos_is(es: Seq<(Seq<char>, Tree)>, k: Seq<char>, i: int)
    requires
        0 <= i < es.len(),
        es[i].0 == k,
        forall|j: int| 0 <= j < i ==> (#[trigger] es[j]).0 != k,
    ensures
        key_pos(es, k) == i,
    decreases es.len(),
{
    if i < es.len() - 1 {
        assert(es.drop_last()[i] == es[i]);
        assert forall|j: int| 0 <= j < i implies (#[trigger] es.drop_last()[j]).0 != k by {
            assert(es.drop_last()[j] == es[j]);
        }
        lemma_key_pos_is(es.drop_last(), k, i);
    } else {
        lemma_key_pos_bounds(es.drop_last(), k);
        if key_pos(es.drop_last(), k) >= 0 {
            assert(es[key_pos(es.drop_last(), k)] == es.drop_last()[key_pos(es.drop_last(), k)]);
        }
    }
}

proof fn lemma_key_pos_update(es: Seq<(Seq<char>, Tree)>, k: Seq<char>, t: Tree)
    requires
        key_pos(es, k) >= 0,
    ensures
        key_pos(es.update(key_pos(es, k), (k, t)), k) == key_pos(es, k),
{
    let i = key_pos(es, k);
    lemma_key_pos_bounds(es, k);
    lemma_first_key(es, k);
    lemma_key_pos_is(es.update(i, (k, t)), k, i);
}

proof fn lemma_first_key(es: Seq<(Seq<char>, Tree)>, k: Seq<char>)
    requires
        key_pos(es, k) >= 0,
    ensures
        forall|j: int| 0 <= j < key_pos(es, k) ==> (#[trigger] es[j]).0 != k,
    decreases es.len(),
{
    lemma_key_pos_bounds(es.drop_last(), k);
    if key_pos(es.drop_last(), k) >= 0 {
        lemma_first_key(es.drop_last(), k);
        assert forall|j: int| 0 <= j < key_pos(es, k) implies (#[trigger] es[j]).0 != k by {
            assert(es[j] == es.drop_last()[j]);
        }
    } else {
        assert forall|j: int| 0 <= j < key_pos(es, k) implies (#[trigger] es[j]).0 != k by {
            assert(es[j] == es.drop_last()[j]);
        }
    }
}

proof fn lemma_obj_set_twice(es: Seq<(Seq<char>, Tree)>, k: Seq<char>, t: Tree)
    ensures
        obj_set(obj_set(es, k, t), k, t) == obj_set(es, k, t),
{
    lemma_key_pos_bounds(es, k);
    if key_pos(es, k) >= 0 {
        lemma_key_pos_update(es, k, t);
        assert(es.update(key_pos(es, k), (k, t)).update(key_pos(es, k), (k, t)) =~= es.update(
            key_pos(es, k),
            (k, t),
        ));
    } else {
        lemma_key_pos_is(es.push((k, t)), k, es.len() as int);
        assert(es.push((k, t)).update(es.len() as int, (k, t)) =~= es.push((k, t)));
    }
}

proof fn lemma_edit_set_twice(t: Tree, toks: Seq<Tok>, k: int, x: Tree, path: Seq<char>)
    requires
        edit_at(t, toks, k, Some(x), path) is Ok,
    ensures
        edit_at(edit_at(t, toks, k, Some(x), path)->Ok_0, toks, k, Some(x), path) == edit_at(
            t,
            toks,
            k,
            Some(x),
            path,
        ),
    decreases toks.len() - k, 0int,
{
    let act = Some(x);
    if k < 0 || k >= toks.len() {
    } else {
        let last = k + 1 == toks.len();
        match toks[k] {
            Tok::Property(p) => {
                if let Tree::Object(es) = t {
                    if last {
                        lemma_obj_set_twice(es, p, x);
                    } else {
                        let i = key_pos(es, p);
                        lemma_key_pos_bounds(es, p);
                        lemma_edit_set_twice(es[i].1, toks, k + 1, x, path);
                        let c = edit_at(es[i].1, toks, k + 1, act, path)->Ok_0;
                        lemma_key_pos_update(es, p, c);
                        assert(es.update(i, (p, c)).update(i, (p, c)) =~= es.update(i, (p, c)));
                    }
                }
            },
            Tok::Index(n) => {
                if let Tree::Array(a) = t {
                    if last {
                        assert(a.update(n as int, x).update(n as int, x) =~= a.update(n as int, x));
                    } else {
                        lemma_edit_set_twice(a[n as int], toks, k + 1, x, path);
                        let c = edit_at(a[n as int], toks, k + 1, act, path)->Ok_0;
                        assert(a.update(n as int, c).update(n as int, c) =~= a.update(n as int, c));
                    }
                }
            },
            Tok::Wildcard => {
                match t {
                    Tree::Array(a) => {
                        lemma_fan_out_set_twice(a, toks, k + 1, x, path);
                    },
                    Tree::Object(es) => {
                        let cs = entry_values(es);
                        lemma_fan_out_set_twice(cs, toks, k + 1, x, path);
                        lemma_fan_out_len(cs, toks, k + 1, act, path);
                        let b = fan_out(cs, toks, k + 1, act, path)->Ok_0;
                        assert(entry_values(with_values(es, b)) =~= b);
                        assert(with_values(with_values(es, b), b) =~= with_values(es, b));
                    },
                    _ => {},
                }
            },
        }
    }
}

proof fn lemma_fan_out_set_twice(cs: Seq<Tree>, toks: Seq<Tok>, k: int, x: Tree, path: Seq<char>)
    requires
        fan_out(cs, toks, k, Some(x), path) is Ok,
    ensures
        fan_out(fan_out(cs, toks, k, Some(x), path)->Ok_0, toks, k, Some(x), path) == fan_out(
            cs,
            toks,
            k,
            Some(x),
            path,
        ),
    decreases toks.len() - k, cs.len(),
{
    let act = Some(x);
    if cs.len() > 0 {
        lemma_fan_out_set_twice(cs.drop_last(), toks, k, x, path);
        lemma_edit_set_twice(cs.last(), toks, k, x, path);
        let p = fan_out(cs.drop_last(), toks, k, act, path)->Ok_0;
        let c = edit_at(cs.last(), toks, k, act, path)->Ok_0;
        assert(p.push(c).drop_last() =~= p);
    }
}

/// Setting a value along a path is idempotent: where the first application succeeds, a
/// second one with the same path and value succeeds and leaves the tree as it is.
pub proof fn lemma_modify_idempotent(t: Tree, path: Seq<char>, x: Tree)
    requires
        edit_at(t, path_tokens(path), 0, Some(x), path) is Ok,
    ensures
        ({
            let once = edit_at(t, path_tokens(path), 0, Some(x), path)->Ok_0;
            edit_at(once, path_tokens(path), 0, Some(x), path) == Ok::<Tree, Fault>(once)
        }),
{
    lemma_edit_set_twice(t, path_tokens(path), 0, x, path);
}

/// The value that the property tokens `toks[k..end]` lead to from `t`, if they all name
/// present properties of objects.
pub open spec fn follow_properties(t: Tree, toks: Seq<Tok>, k: int, end: int) -> Option<Tree>
    decreases end - k,
{
    if k >= end || k < 0 || end > toks.len() {
        Some(t)
    } else {
        match (toks[k], t) {
            (Tok::Property(p), Tree::Object(es)) => {
                let i = key_pos(es, p);
                if i < 0 {
                    None
                } else {
                    follow_properties(es[i].1, toks, k + 1, end)
                }
            },
            _ => None,
        }
    }
}

proof fn lemma_remove_absent(t: Tree, toks: Seq<Tok>, k: int, path: Seq<char>, p: Seq<char>)
    requires
        0 <= k < toks.len(),
        toks.last() == Tok::Property(p),
        follow_properties(t, toks, k, toks.len() - 1) matches Some(Tree::Object(es)) && key_pos(
            es,
            p,
        ) < 0,
    ensures
        edit_at(t, toks, k, None, path) == Ok::<Tree, Fault>(t),
    decreases toks.len() - k,
{
    if k < toks.len() - 1 {
        if let (Tok::Property(q), Tree::Object(es)) = (toks[k], t) {
            let i = key_pos(es, q);
            lemma_key_pos_bounds(es, q);
            lemma_remove_absent(es[i].1, toks, k + 1, path, p);
            assert(es.update(i, (q, es[i].1)) =~= es);
        }
    }
}

/// Removing a property that is absent from the object that the rest of the path leads to
/// succeeds and leaves the tree unchanged.
pub proof fn lemma_remove_missing_is_noop(t: Tree, path: Seq<char>, p: Seq<char>)
    requires
        path_tokens(path).last() == Tok::Property(p),
        follow_properties(t, path_tokens(path), 0, path_tokens(path).len() - 1) matches Some(
            Tree::Object(es),
        ) && key_pos(es, p) < 0,
    ensures
        edit_at(t, path_tokens(path), 0, None, path) == Ok::<Tree, Fault>(t),
{
    assert(split_on(path, '.').len() >= 1) by {
        lemma_split_nonempty(path, '.');
    }
    lemma_remove_absent(t, path_tokens(path), 0, path, p);
}

} // verus!

verus! {

#[verifier::spinoff_prover]
proof fn lemma_obj_set_wf(es: Seq<(Seq<char>, Tree)>, k: Seq<char>, t: Tree)
    requires
        unique_keys(es),
        forall|i: int| 0 <= i < es.len() ==> #[trigger] well_formed(es[i].1),
        well_formed(t),
    ensures
        unique_keys(obj_set(es, k, t)),
        forall|i: int| 0 <= i < obj_set(es, k, t).len() ==> #[trigger] well_formed(obj_set(es, k, t)[i].1),
{
    lemma_key_pos_bounds(es, k);
    let r = obj_set(es, k, t);
    assert forall|i: int| 0 <= i < r.len() implies #[trigger] well_formed(r[i].1) by {
        if key_pos(es, k) >= 0 {
            if i != key_pos(es, k) {
                assert(r[i] == es[i]);
            }
        } else if i < es.len() {
            assert(r[i] == es[i]);
        }
    }
    assert forall|i: int, j: int|
        0 <= i < r.len() && 0 <= j < r.len() && i != j implies (#[trigger] r[i]).0 != (#[trigger] r[j]).0 by {
        if key_pos(es, k) < 0 {
            if i < es.len() && j < es.len() {
                assert(r[i] == es[i] && r[j] == es[j]);
            }
        } else {
            let p = key_pos(es, k);
            assert(r[i].0 == es[i].0 && r[j].0 == es[j].0);
        }
    }
}

proof fn lemma_obj_del_wf(es: Seq<(Seq<char>, Tree)>, k: Seq<char>)
    requires
        unique_keys(es),
        forall|i: int| 0 <= i < es.len() ==> #[trigger] well_formed(es[i].1),
    ensures
        unique_keys(obj_del(es, k)),
        forall|i: int| 0 <= i < obj_del(es, k).len() ==> #[trigger] well_formed(obj_del(es, k)[i].1),
{
    lemma_key_pos_bounds(es, k);
    let r = obj_del(es, k);
    let p = key_pos(es, k);
    if p >= 0 {
        assert forall|i: int| 0 <= i < r.len() implies r[i] == es[if i < p { i } else { i + 1 }] by {}
        assert forall|i: int, j: int|
            0 <= i < r.len() && 0 <= j < r.len() && i != j implies (#[trigger] r[i]).0 != (#[trigger] r[j]).0 by {
            let a = if i < p { i } else { i + 1 };
            let b = if j < p { j } else { j + 1 };
            assert(r[i] == es[a] && r[j] == es[b]);
        }
        assert forall|i: int| 0 <= i < r.len() implies #[trigger] well_formed(r[i].1) by {
            let a = if i < p { i } else { i + 1 };
            assert(r[i] == es[a]);
        }
    }
}

#[verifier::spinoff_prover]
proof fn lemma_edit_wf(t: Tree, toks: Seq<Tok>, k: int, act: Option<Tree>, path: Seq<char>)
    requires
        well_formed(t),
        act matches Some(x) ==> well_formed(x),
        edit_at(t, toks, k, act, path) is Ok,
    ensures
        well_formed(edit_at(t, toks, k, act, path)->Ok_0),
    decreases toks.len() - k, 0int,
{
    if 0 <= k < toks.len() {
        let last = k + 1 == toks.len();
        match toks[k] {
            Tok::Property(p) => {
                if let Tree::Object(es) = t {
                    lemma_entries_well_formed(es);
                    if last {
                        match act {
                            Some(x) => {
                                lemma_obj_set_wf(es, p, x);
                                lemma_entries_well_formed(obj_set(es, p, x));
                            },
                            None => {
                                lemma_obj_del_wf(es, p);
                                lemma_entries_well_formed(obj_del(es, p));
                            },
                        }
                    } else {
                        let i = key_pos(es, p);
                        lemma_key_pos_bounds(es, p);
                        lemma_edit_wf(es[i].1, toks, k + 1, act, path);
                        let c = edit_at(es[i].1, toks, k + 1, act, path)->Ok_0;
                        let r = es.update(i, (p, c));
                        assert forall|a: int, b: int|
                            0 <= a < r.len() && 0 <= b < r.len() && a != b implies (#[trigger] r[a]).0 != (
                            #[trigger] r[b]).0 by {
                            assert(r[a].0 == es[a].0 && r[b].0 == es[b].0);
                        }
                        assert forall|a: int| 0 <= a < r.len() implies #[trigger] well_formed(r[a].1) by {
                            if a != i {
                                assert(r[a] == es[a]);
                            }
                        }
                        lemma_entries_well_formed(r);
                    }
                }
            },
            Tok::Index(n) => {
                if let Tree::Array(a) = t {
                    lemma_all_well_formed(a);
                    if n < a.len() {
                        if last {
                            match act {
                                None => {
                                    let r = a.remove(n as int);
                                    assert forall|i: int| 0 <= i < r.len() implies #[trigger] well_formed(r[i]) by {
                                        assert(r[i] == a[if i < n { i } else { i + 1 }]);
                                    }
                                    lemma_all_well_formed(r);
                                },
                                Some(x) => {
                                    let r = a.update(n as int, x);
                                    assert forall|i: int| 0 <= i < r.len() implies #[trigger] well_formed(r[i]) by {
                                        if i != n {
                                            assert(r[i] == a[i]);
                                        }
                                    }
                                    lemma_all_well_formed(r);
                                },
                            }
                        } else {
                            lemma_edit_wf(a[n as int], toks, k + 1, act, path);
                            let c = edit_at(a[n as int], toks, k + 1, act, path)->Ok_0;
                            let r = a.update(n as int, c);
                            assert forall|i: int| 0 <= i < r.len() implies #[trigger] well_formed(r[i]) by {
                                if i != n {
                                    assert(r[i] == a[i]);
                                }
                            }
                            lemma_all_well_formed(r);
                        }
                    }
                }
            },
            Tok::Wildcard => {
                match t {
                    Tree::Array(a) => {
                        lemma_all_well_formed(a);
                        lemma_fan_out_wf(a, toks, k + 1, act, path);
                        lemma_all_well_formed(fan_out(a, toks, k + 1, act, path)->Ok_0);
                    },
                    Tree::Object(es) => {
                        let cs = entry_values(es);
                        lemma_entries_well_formed(es);
                        assert forall|i: int| 0 <= i < cs.len() implies #[trigger] well_formed(cs[i]) by {
                            assert(cs[i] == es[i].1);
                        }
                        lemma_fan_out_wf(cs, toks, k + 1, act, path);
                        let b = fan_out(cs, toks, k + 1, act, path)->Ok_0;
                        let r = with_values(es, b);
                        assert forall|a: int, c: int|
                            0 <= a < r.len() && 0 <= c < r.len() && a != c implies (#[trigger] r[a]).0 != (
                            #[trigger] r[c]).0 by {
                            assert(r[a].0 == es[a].0 && r[c].0 == es[c].0);
                        }
                        assert forall|a: int| 0 <= a < r.len() implies #[trigger] well_formed(r[a].1) by {
                            assert(r[a].1 == b[a]);
                        }
                        lemma_entries_well_formed(r);
                    },
                    _ => {},
                }
            },
        }
    }
}

proof fn lemma_fan_out_wf(cs: Seq<Tree>, toks: Seq<Tok>, k: int, act: Option<Tree>, path: Seq<char>)
    requires
        forall|i: int| 0 <= i < cs.len() ==> #[trigger] well_formed(cs[i]),
        act matches Some(x) ==> well_formed(x),
        fan_out(cs, toks, k, act, path) is Ok,
    ensures
        fan_out(cs, toks, k, act, path)->Ok_0.len() == cs.len(),
        forall|i: int|
            0 <= i < cs.len() ==> #[trigger] well_formed(fan_out(cs, toks, k, act, path)->Ok_0[i]),
    decreases toks.len() - k, cs.len(),
{
    if cs.len() > 0 {
        assert forall|i: int| 0 <= i < cs.drop_last().len() implies #[trigger] well_formed(cs.drop_last()[i]) by {
            assert(cs.drop_last()[i] == cs[i]);
        }
        lemma_fan_out_wf(cs.drop_last(), toks, k, act, path);
        lemma_edit_wf(cs.last(), toks, k, act, path);
    }
}

/// Edits keep a value tree well formed: where a tree and the value put in are well formed
/// and an edit succeeds, its result is well formed.
pub proof fn lemma_edit_keeps_well_formed(t: Tree, path: Seq<char>, act: Option<Tree>)
    requires
        well_formed(t),
        act matches Some(x) ==> well_formed(x),
        edit_at(t, path_tokens(path), 0, act, path) is Ok,
    ensures
        well_formed(edit_at(t, path_tokens(path), 0, act, path)->Ok_0),
{
    lemma_edit_wf(t, path_tokens(path), 0, act, path);
}

} // verus!

verus! {

/// No token from `k` on is a wildcard.
pub open spec fn no_wildcard_from(toks: Seq<Tok>, k: int) -> bool {
    forall|j: int| k <= j < toks.len() ==> toks[j] != Tok::Wildcard
}

proof fn lemma_left_unchanged(t: Tree, toks: Seq<Tok>, k: int, act: Option<Tree>, path: Seq<char>)
    requires
        0 <= k,
        no_wildcard_from(toks, k),
        edit_at(t, toks, k, act, path) is Err,
    ensures
        edit_left(t, toks, k, act, path) == t,
    decreases toks.len() - k,
{
    if k + 1 < toks.len() {
        match (toks[k], t) {
            (Tok::Property(p), Tree::Object(es)) => {
                let i = key_pos(es, p);
                if i >= 0 {
                    lemma_key_pos_bounds(es, p);
                    lemma_left_unchanged(es[i].1, toks, k + 1, act, path);
                    assert(es.update(i, (p, es[i].1)) =~= es);
                }
            },
            (Tok::Index(n), Tree::Array(a)) => {
                if n < a.len() {
                    lemma_left_unchanged(a[n as int], toks, k + 1, act, path);
                    assert(a.update(n as int, a[n as int]) =~= a);
                }
            },
            _ => {},
        }
    }
}

/// A failed edit along a path without wildcards leaves the tree as it was.
pub proof fn lemma_failed_edit_without_wildcard_keeps_tree(t: Tree, path: Seq<char>, act: Option<Tree>)
    requires
        no_wildcard_from(path_tokens(path), 0),
        edit_at(t, path_tokens(path), 0, act, path) is Err,
    ensures
        edit_left(t, path_tokens(path), 0, act, path) == t,
{
    lemma_left_unchanged(t, path_tokens(path), 0, act, path);
}

/// Each object of `items` with `q` bound to `x`.
pub open spec fn set_in_each(items: Seq<Tree>, q: Seq<char>, x: Tree) -> Seq<Tree> {
    Seq::new(items.len(), |j: int| Tree::Object(obj_set(items[j]->Object_0, q, x)))
}

proof fn lemma_fan_out_set_field(items: Seq<Tree>, toks: Seq<Tok>, q: Seq<char>, x: Tree, path: Seq<char>)
    requires
        toks.len() == 3,
        toks[2] == Tok::Property(q),
        forall|j: int| 0 <= j < items.len() ==> (#[trigger] items[j]) is Object,
    ensures
        fan_out(items, toks, 2, Some(x), path) == Ok::<Seq<Tree>, Fault>(set_in_each(items, q, x)),
    decreases items.len(),
{
    if items.len() > 0 {
        let pre = items.drop_last();
        assert forall|j: int| 0 <= j < pre.len() implies (#[trigger] pre[j]) is Object by {
            assert(pre[j] == items[j]);
        }
        lemma_fan_out_set_field(pre, toks, q, x, path);
        assert(items[items.len() - 1] is Object);
        let o = items.last();
        assert(o == Tree::Object(o->Object_0));
        assert(edit_at(o, toks, 2, Some(x), path) == Ok::<Tree, Fault>(
            Tree::Object(obj_set(o->Object_0, q, x)),
        ));
        assert(set_in_each(pre, q, x).push(Tree::Object(obj_set(items.last()->Object_0, q, x)))
            =~= set_in_each(items, q, x));
    } else {
        assert(set_in_each(items, q, x) =~= Seq::<Tree>::empty());
    }
}

/// Setting `p.*.q` on an object whose `p` is an array of objects succeeds and binds `q` to
/// the value in every one of them, each keeping its other entries; nothing else changes.
pub proof fn lemma_set_field_of_every_element(
    es: Seq<(Seq<char>, Tree)>,
    path: Seq<char>,
    p: Seq<char>,
    q: Seq<char>,
    x: Tree,
)
    requires
        path_tokens(path) == seq![Tok::Property(p), Tok::Wildcard, Tok::Property(q)],
        key_pos(es, p) >= 0,
        es[key_pos(es, p)].1 is Array,
        forall|j: int|
            0 <= j < es[key_pos(es, p)].1->Array_0.len() ==> (#[trigger] es[key_pos(
                es,
                p,
            )].1->Array_0[j]) is Object,
    ensures
        edit_at(Tree::Object(es), path_tokens(path), 0, Some(x), path) == Ok::<Tree, Fault>(
            Tree::Object(
                es.update(
                    key_pos(es, p),
                    (p, Tree::Array(set_in_each(es[key_pos(es, p)].1->Array_0, q, x))),
                ),
            ),
        ),
{
    let toks = path_tokens(path);
    let items = es[key_pos(es, p)].1->Array_0;
    lemma_fan_out_set_field(items, toks, q, x, path);
    assert(toks[1] == Tok::Wildcard);
    assert(edit_at(Tree::Array(items), toks, 1, Some(x), path) == Ok::<Tree, Fault>(
        Tree::Array(set_in_each(items, q, x)),
    ));
}

} // verus!

verus! {

/// Setting `items.*.qty` to `x` on an object whose `items` is an array of objects succeeds
/// and binds `qty` to `x` in each of them, every other entry kept.
pub proof fn lemma_items_qty_sets_every_element(es: Seq<(Seq<char>, Tree)>, x: Tree)
    requires
        key_pos(es, "items"@) >= 0,
        es[key_pos(es, "items"@)].1 is Array,
        forall|j: int|
            0 <= j < es[key_pos(es, "items"@)].1->Array_0.len() ==> (#[trigger] es[key_pos(
                es,
                "items"@,
            )].1->Array_0[j]) is Object,
    ensures
        edit_at(Tree::Object(es), path_tokens("items.*.qty"@), 0, Some(x), "items.*.qty"@) == Ok::<
            Tree,
            Fault,
        >(
            Tree::Object(
                es.update(
                    key_pos(es, "items"@),
                    ("items"@, Tree::Array(set_in_each(es[key_pos(es, "items"@)].1->Array_0, "qty"@, x))),
                ),
            ),
        ),
{
    lemma_items_qty_tokens();
    lemma_set_field_of_every_element(es, "items.*.qty"@, "items"@, "qty"@, x);
}

} // verus!
