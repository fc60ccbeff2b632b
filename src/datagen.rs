use vstd::prelude::*;
use crate::convert::{ingredient_valid, parse_recipe, recipe_tree, recipe_valid};
use crate::edit::{Modify, Remove, edit_at, lemma_edit_keeps_well_formed};
use crate::error::{Error, Fault};
use crate::patch::{
    PatchIterator, Substitution, combinations, lemma_combinations_zero, lemma_rank_bound,
    lemma_rank_zeros, lemma_successor_rank, lemma_unrank_rank, patch_at, patch_view, rank,
    successor, unrank, value_counts, zeros,
};
use crate::path::path_tokens;
use crate::recipe::{
    Recipe, RecipeModel, Template, apply_patch, lemma_replace_entries, placeholder, replace_entries,
    replace_recipe,
};
use crate::tags::{Tag, resolve_tag, resolve_values, strings_view};
use crate::value::{Tree, Value, unique_keys, view_entries, well_formed};

verus! {

/// One value or a list of values.
#[derive(Debug, Clone, PartialEq)]
pub enum OneOrMany<T> {
    /// A single value.
    One(T),
    /// A list of values.
    Many(Vec<T>),
}

impl<T> OneOrMany<T> {
    /// The values, in order.
    pub open spec fn items(&self) -> Seq<T> {
        match self {
            OneOrMany::One(v) => seq![*v],
            OneOrMany::Many(vs) => vs@,
        }
    }

    /// The number of values.
    pub fn len(&self) -> (r: usize)
        ensures
            r == self.items().len(),
    {
        match self {
            OneOrMany::One(_) => 1,
            OneOrMany::Many(vs) => vs.len(),
        }
    }

    /// Starts a walk over the values.
    pub fn iter(&self) -> (r: OneOrManyIterator<'_, T>)
        ensures
            *r.inner == *self,
            r.index == 0,
    {
        OneOrManyIterator { inner: self, index: 0 }
    }
}

/// A walk over the values of a [`OneOrMany`].
pub struct OneOrManyIterator<'a, T> {
    pub inner: &'a OneOrMany<T>,
    pub index: usize,
}

impl<'a, T> OneOrManyIterator<'a, T> {
    /// The next value, or `None` after the last one.
    pub fn next(&mut self) -> (r: Option<&'a T>)
        ensures
            final(self).inner == old(self).inner,
            old(self).index < old(self).inner.items().len() ==> r == Some(
                &old(self).inner.items()[old(self).index as int],
            ) && final(self).index == old(self).index + 1,
            old(self).index >= old(self).inner.items().len() ==> r is None && final(self).index
                == old(self).index,
    {
        match self.inner {
            OneOrMany::One(value) => {
                if self.index == 0 {
                    self.index += 1;
                    Some(value)
                } else {
                    None
                }
            },
            OneOrMany::Many(values) => {
                if self.index < values.len() {
                    let value = &values[self.index];
                    self.index += 1;
                    Some(value)
                } else {
                    None
                }
            },
        }
    }
}

/// A set of rules that expands one template into many recipes.
#[derive(Debug, Clone, PartialEq)]
pub struct Grammar {
    /// The name(s) of the templates to expand; `None` for the default template.
    pub template: Option<OneOrMany<String>>,
    /// The tags, in order.
    pub tags: Vec<Tag>,
    /// Locations to remove from the recipe, in order.
    pub remove: Vec<Remove>,
    /// Locations to create or replace in the recipe, in order.
    pub modify: Vec<Modify>,
    /// Fields with no meaning here, kept as they are.
    pub rest: Vec<(String, Value)>,
}

/// The input of a generation run.
#[derive(Debug, Clone, PartialEq)]
pub struct Manifest {
    /// The output file name.
    pub output: String,
    /// Static properties that tag values can refer to with `@`.
    pub static_props: Vec<(String, Value)>,
    pub templates: Vec<Template>,
    pub grammars: Vec<Grammar>,
}

/// The position of the first template named `key`, or -1.
pub open spec fn name_pos(ts: Seq<Template>, key: Seq<char>) -> int
    decreases ts.len(),
{
    if ts.len() == 0 {
        -1
    } else {
        let p = name_pos(ts.drop_last(), key);
        if p >= 0 {
            p
        } else if ts.last().name@ == key {
            ts.len() - 1
        } else {
            -1
        }
    }
}

/// The template that a grammar's name selects: the first with that name; failing that,
/// for the name `default`, the first template. -1 where there is none.
pub open spec fn template_pos(ts: Seq<Template>, key: Seq<char>) -> int {
    if name_pos(ts, key) >= 0 {
        name_pos(ts, key)
    } else if key == "default"@ && ts.len() > 0 {
        0
    } else {
        -1
    }
}

/// The template of grammars that name none: the first named `default`, else the first.
pub open spec fn default_pos(ts: Seq<Template>) -> int {
    if name_pos(ts, "default"@) >= 0 {
        name_pos(ts, "default"@)
    } else if ts.len() > 0 {
        0
    } else {
        -1
    }
}

proof fn lemma_name_pos(ts: Seq<Template>, key: Seq<char>)
    ensures
        -1 <= name_pos(ts, key) < ts.len(),
        name_pos(ts, key) >= 0 ==> ts[name_pos(ts, key)].name@ == key,
    decreases ts.len(),
{
    if ts.len() > 0 {
        lemma_name_pos(ts.drop_last(), key);
    }
}

proof fn lemma_name_pos_prefix(ts: Seq<Template>, key: Seq<char>, m: int)
    requires
        0 <= m <= ts.len(),
        name_pos(ts.take(m), key) >= 0,
    ensures
        name_pos(ts, key) == name_pos(ts.take(m), key),
    decreases ts.len() - m,
{
    if m < ts.len() {
        assert(ts.take(m + 1).drop_last() =~= ts.take(m));
        lemma_name_pos_prefix(ts, key, m + 1);
    } else {
        assert(ts.take(m) =~= ts);
    }
}

fn find_name(ts: &Vec<Template>, key: &str) -> (r: Option<usize>)
    ensures
        match r {
            Some(i) => i == name_pos(ts@, key@),
            None => name_pos(ts@, key@) < 0,
        },
{
    let k = String::from_str(key);
    assert(ts@.take(0) =~= Seq::<Template>::empty());
    let mut i: usize = 0;
    while i < ts.len()
        invariant
            i <= ts@.len(),
            k@ == key@,
            name_pos(ts@.take(i as int), key@) < 0,
        decreases ts.len() - i,
    {
        assert(ts@.take(i + 1).drop_last() =~= ts@.take(i as int));
        if ts[i].name == k {
            proof {
                lemma_name_pos_prefix(ts@, key@, i + 1);
            }
            return Some(i);
        }
        i += 1;
    }
    assert(ts@.take(i as int) =~= ts@);
    None
}

impl Manifest {
    /// Finds a template by name. Where there is none of that name and the name is
    /// `default`, the first template is taken.
    pub fn find_template(&self, template_key: &str) -> (r: Result<&Template, Error>)
        ensures
            template_pos(self.templates@, template_key@) >= 0 ==> r is Ok && *r->Ok_0
                == self.templates@[template_pos(self.templates@, template_key@)],
            template_pos(self.templates@, template_key@) < 0 ==> r is Err && r->Err_0@
                == Fault::UnknownTemplate(template_key@),
    {
        proof {
            lemma_name_pos(self.templates@, template_key@);
            reveal_strlit("default");
        }
        match find_name(&self.templates, template_key) {
            Some(i) => Ok(&self.templates[i]),
            None => {
                let key = String::from_str(template_key);
                let default_name = String::from_str("default");
                if key == default_name && self.templates.len() > 0 {
                    Ok(&self.templates[0])
                } else {
                    Err(Error::UnknownTemplate(key))
                }
            },
        }
    }
}

} // verus!

verus! {

/// The tree after each removal in turn; the first failure is the result.
pub open spec fn apply_removes(t: Tree, rs: Seq<Remove>) -> Result<Tree, Fault>
    decreases rs.len(),
{
    if rs.len() == 0 {
        Ok(t)
    } else {
        match apply_removes(t, rs.drop_last()) {
            Err(f) => Err(f),
            Ok(u) => edit_at(u, path_tokens(rs.last().0.0@), 0, None, rs.last().0.0@),
        }
    }
}

/// The tree after each modification in turn; the first failure is the result.
pub open spec fn apply_modifies(t: Tree, ms: Seq<Modify>) -> Result<Tree, Fault>
    decreases ms.len(),
{
    if ms.len() == 0 {
        Ok(t)
    } else {
        match apply_modifies(t, ms.drop_last()) {
            Err(f) => Err(f),
            Ok(u) => edit_at(
                u,
                path_tokens(ms.last().path.0@),
                0,
                Some(ms.last().value@),
                ms.last().path.0@,
            ),
        }
    }
}

/// The template's recipe after the grammar's removals and modifications, read back as a
/// recipe.
pub open spec fn prepared(g: Grammar, template: Template) -> Result<RecipeModel, Fault> {
    match apply_removes(recipe_tree(template.recipe@), g.remove@) {
        Err(f) => Err(f),
        Ok(t1) => match apply_modifies(t1, g.modify@) {
            Err(f) => Err(f),
            Ok(t2) => parse_recipe(t2),
        },
    }
}

/// Each tag's name with its concrete values, in order; the first failure is the result.
pub open spec fn resolve_all(tags: Seq<Tag>, statics: Seq<(Seq<char>, Tree)>) -> Result<
    Seq<(Seq<char>, Seq<Seq<char>>)>,
    Fault,
>
    decreases tags.len(),
{
    if tags.len() == 0 {
        Ok(Seq::empty())
    } else {
        match resolve_all(tags.drop_last(), statics) {
            Err(f) => Err(f),
            Ok(p) => match resolve_values(strings_view(tags.last().values@), statics) {
                Err(f) => Err(f),
                Ok(vs) => Ok(p.push((tags.last().name@, vs))),
            },
        }
    }
}

pub open spec fn resolved_view(v: Seq<(String, Vec<String>)>) -> Seq<(Seq<char>, Seq<Seq<char>>)> {
    v.map_values(|t: (String, Vec<String>)| (t.0@, strings_view(t.1@)))
}

pub open spec fn counts_of(rt: Seq<(Seq<char>, Seq<Seq<char>>)>) -> Seq<nat> {
    rt.map_values(|t: (Seq<char>, Seq<Seq<char>>)| t.1.len())
}

/// The patch of one combination of resolved tags.
pub open spec fn patch_of(rt: Seq<(Seq<char>, Seq<Seq<char>>)>, idx: Seq<usize>) -> Seq<
    (Seq<char>, Seq<char>),
> {
    Seq::new(rt.len(), |i: int| (rt[i].0, rt[i].1[idx[i] as int]))
}

/// The recipes that a grammar makes from a template: one per combination of tag values,
/// in enumeration order, each the prepared recipe with that combination's substitutions.
/// Where there is no combination nothing is prepared and nothing fails but the tags.
pub open spec fn expansion(g: Grammar, template: Template, statics: Seq<(Seq<char>, Tree)>) -> Result<
    Seq<RecipeModel>,
    Fault,
> {
    match resolve_all(g.tags@, statics) {
        Err(f) => Err(f),
        Ok(rt) => {
            let lens = counts_of(rt);
            let n = combinations(lens);
            if n == 0 {
                Ok(Seq::empty())
            } else {
                match prepared(g, template) {
                    Err(f) => Err(f),
                    Ok(m) => Ok(
                        Seq::new(n, |i: int| apply_patch(m, patch_of(rt, unrank(lens, i as nat)))),
                    ),
                }
            }
        },
    }
}

/// A manifest binds each static property once, and its templates' trees and the values
/// its modifications put in are well formed.
pub open spec fn manifest_valid(m: Manifest) -> bool {
    &&& unique_keys(view_entries(m.static_props@))
    &&& forall|i: int| 0 <= i < m.templates@.len() ==> well_formed(
        recipe_tree(#[trigger] m.templates@[i].recipe@),
    )
    &&& forall|i: int| 0 <= i < m.grammars@.len() ==> modify_values_well_formed(
        #[trigger] m.grammars@[i].modify@,
    )
}

/// The values that the modifications put in are well formed.
pub open spec fn modify_values_well_formed(ms: Seq<Modify>) -> bool {
    forall|i: int| 0 <= i < ms.len() ==> well_formed(#[trigger] ms[i].value@)
}

pub open spec fn recipes_view(v: Seq<Recipe>) -> Seq<RecipeModel> {
    v.map_values(|r: Recipe| r@)
}

proof fn lemma_removes_err(t: Tree, rs: Seq<Remove>, m: int)
    requires
        0 <= m <= rs.len(),
        apply_removes(t, rs.take(m)) is Err,
    ensures
        apply_removes(t, rs) == apply_removes(t, rs.take(m)),
    decreases rs.len(),
{
    if m == rs.len() {
        assert(rs.take(m) =~= rs);
    } else {
        assert(rs.drop_last().take(m) =~= rs.take(m));
        lemma_removes_err(t, rs.drop_last(), m);
    }
}

proof fn lemma_modifies_err(t: Tree, ms: Seq<Modify>, m: int)
    requires
        0 <= m <= ms.len(),
        apply_modifies(t, ms.take(m)) is Err,
    ensures
        apply_modifies(t, ms) == apply_modifies(t, ms.take(m)),
    decreases ms.len(),
{
    if m == ms.len() {
        assert(ms.take(m) =~= ms);
    } else {
        assert(ms.drop_last().take(m) =~= ms.take(m));
        lemma_modifies_err(t, ms.drop_last(), m);
    }
}

proof fn lemma_resolve_all_err(tags: Seq<Tag>, statics: Seq<(Seq<char>, Tree)>, m: int)
    requires
        0 <= m <= tags.len(),
        resolve_all(tags.take(m), statics) is Err,
    ensures
        resolve_all(tags, statics) == resolve_all(tags.take(m), statics),
    decreases tags.len(),
{
    if m == tags.len() {
        assert(tags.take(m) =~= tags);
    } else {
        assert(tags.drop_last().take(m) =~= tags.take(m));
        lemma_resolve_all_err(tags.drop_last(), statics, m);
    }
}

fn apply_patch_to(recipe: &mut Recipe, patch: &Vec<Substitution>)
    ensures
        final(recipe)@ == apply_patch(old(recipe)@, patch_view(patch@)),
{
    let ghost pv = patch_view(patch@);
    assert(pv.take(0) =~= Seq::<(Seq<char>, Seq<char>)>::empty());
    let mut i: usize = 0;
    while i < patch.len()
        invariant
            i <= patch@.len(),
            pv == patch_view(patch@),
            recipe@ == apply_patch(old(recipe)@, pv.take(i as int)),
        decreases patch.len() - i,
    {
        assert(pv.take(i + 1).drop_last() =~= pv.take(i as int));
        assert(pv.take(i + 1).last() == patch@[i as int]@);
        let _ = patch[i].apply(recipe);
        i += 1;
    }
    assert(pv.take(i as int) =~= pv);
}

impl Grammar {
    /// The template's recipe after every removal, then every modification, read back as a
    /// recipe.
    pub fn prepare(&self, template: &Template) -> (r: Result<Recipe, Error>)
        ensures
            match prepared(*self, *template) {
                Ok(m) => r is Ok && r->Ok_0@ == m,
                Err(f) => r is Err && r->Err_0@ == f,
            },
            well_formed(recipe_tree(template.recipe@)) && modify_values_well_formed(self.modify@)
                && r is Ok ==> recipe_valid(r->Ok_0@),
    {
        let mut tree = template.recipe.to_value();
        let ghost t0 = tree@;
        assert(self.remove@.take(0) =~= Seq::<Remove>::empty());
        let mut i: usize = 0;
        while i < self.remove.len()
            invariant
                i <= self.remove@.len(),
                t0 == recipe_tree(template.recipe@),
                apply_removes(t0, self.remove@.take(i as int)) == Ok::<Tree, Fault>(tree@),
                well_formed(t0) ==> well_formed(tree@),
            decreases self.remove.len() - i,
        {
            assert(self.remove@.take(i + 1).drop_last() =~= self.remove@.take(i as int));
            let ghost before = tree@;
            match self.remove[i].apply(&mut tree) {
                Err(e) => {
                    proof {
                        lemma_removes_err(t0, self.remove@, i + 1);
                    }
                    return Err(e);
                },
                Ok(()) => {
                    proof {
                        if well_formed(t0) {
                            lemma_edit_keeps_well_formed(before, self.remove@[i as int].0.0@, None);
                        }
                    }
                },
            }
            i += 1;
        }
        assert(self.remove@.take(i as int) =~= self.remove@);
        let ghost t1 = tree@;
        assert(self.modify@.take(0) =~= Seq::<Modify>::empty());
        let mut j: usize = 0;
        while j < self.modify.len()
            invariant
                j <= self.modify@.len(),
                apply_removes(recipe_tree(template.recipe@), self.remove@) == Ok::<Tree, Fault>(t1),
                apply_modifies(t1, self.modify@.take(j as int)) == Ok::<Tree, Fault>(tree@),
                well_formed(t1) && modify_values_well_formed(self.modify@) ==> well_formed(tree@),
            decreases self.modify.len() - j,
        {
            assert(self.modify@.take(j + 1).drop_last() =~= self.modify@.take(j as int));
            let ghost before = tree@;
            match self.modify[j].apply(&mut tree) {
                Err(e) => {
                    proof {
                        lemma_modifies_err(t1, self.modify@, j + 1);
                    }
                    return Err(e);
                },
                Ok(()) => {
                    proof {
                        if well_formed(t1) && modify_values_well_formed(self.modify@) {
                            assert(well_formed(self.modify@[j as int].value@));
                            lemma_edit_keeps_well_formed(
                                before,
                                self.modify@[j as int].path.0@,
                                Some(self.modify@[j as int].value@),
                            );
                        }
                    }
                },
            }
            j += 1;
        }
        assert(self.modify@.take(j as int) =~= self.modify@);
        Recipe::from_value(&tree)
    }

    /// Resolves every tag against the static properties.
    pub fn resolve_tags(&self, static_props: &Vec<(String, Value)>) -> (r: Result<Vec<(String, Vec<String>)>, Error>)
        ensures
            match resolve_all(self.tags@, view_entries(static_props@)) {
                Ok(rt) => r is Ok && resolved_view(r->Ok_0@) == rt,
                Err(f) => r is Err && r->Err_0@ == f,
            },
    {
        let ghost st = view_entries(static_props@);
        let mut out: Vec<(String, Vec<String>)> = Vec::new();
        assert(self.tags@.take(0) =~= Seq::<Tag>::empty());
        assert(resolved_view(out@) =~= Seq::<(Seq<char>, Seq<Seq<char>>)>::empty());
        let mut i: usize = 0;
        while i < self.tags.len()
            invariant
                i <= self.tags@.len(),
                st == view_entries(static_props@),
                resolve_all(self.tags@.take(i as int), st) == Ok::<Seq<(Seq<char>, Seq<Seq<char>>)>, Fault>(
                    resolved_view(out@),
                ),
            decreases self.tags.len() - i,
        {
            assert(self.tags@.take(i + 1).drop_last() =~= self.tags@.take(i as int));
            assert(self.tags@.take(i + 1).last() == self.tags@[i as int]);
            match resolve_tag(&self.tags[i], static_props) {
                Err(e) => {
                    proof {
                        lemma_resolve_all_err(self.tags@, st, i + 1);
                    }
                    return Err(e);
                },
                Ok(t) => {
                    let ghost before = out@;
                    out.push(t);
                    assert(resolved_view(out@) =~= resolved_view(before).push(
                        (out@.last().0@, strings_view(out@.last().1@)),
                    ));
                },
            }
            i += 1;
        }
        assert(self.tags@.take(i as int) =~= self.tags@);
        Ok(out)
    }
}

} // verus!

verus! {

proof fn lemma_counts(v: Seq<(String, Vec<String>)>)
    ensures
        counts_of(resolved_view(v)) == value_counts(v),
{
    assert(counts_of(resolved_view(v)) =~= value_counts(v));
}

impl Grammar {
    /// Expands the grammar on a template: one recipe per combination of tag values, in
    /// enumeration order, as [`expansion`] states.
    pub fn expand(&self, template: &Template, static_props: &Vec<(String, Value)>) -> (r: Result<Vec<Recipe>, Error>)
        ensures
            match expansion(*self, *template, view_entries(static_props@)) {
                Ok(s) => r is Ok && recipes_view(r->Ok_0@) == s,
                Err(f) => r is Err && r->Err_0@ == f,
            },
            well_formed(recipe_tree(template.recipe@)) && modify_values_well_formed(self.modify@)
                && r is Ok ==> forall|i: int|
                0 <= i < r->Ok_0@.len() ==> recipe_valid(#[trigger] r->Ok_0@[i]@),
    {
        let tags = self.resolve_tags(static_props)?;
        let ghost rt = resolved_view(tags@);
        let ghost lens = counts_of(rt);
        proof {
            lemma_counts(tags@);
        }
        let mut it = PatchIterator::new(tags);
        let mut recipes: Vec<Recipe> = Vec::new();
        proof {
            if it.is_done {
                let i = choose|i: int| 0 <= i < it.tags@.len() && (#[trigger] it.tags@[i]).1@.len() == 0;
                assert(lens[i] == 0);
                lemma_combinations_zero(lens, i);
            } else {
                assert(lens.len() == it.indices@.len());
                lemma_rank_zeros(lens);
            }
        }
        while !it.is_done
            invariant
                it.wf(),
                rt == resolved_view(it.tags@),
                lens == counts_of(rt),
                lens == value_counts(it.tags@),
                resolve_all(self.tags@, view_entries(static_props@)) == Ok::<
                    Seq<(Seq<char>, Seq<Seq<char>>)>,
                    Fault,
                >(rt),
                !it.is_done ==> rank(it.indices@, lens) == recipes@.len(),
                it.is_done ==> recipes@.len() == combinations(lens),
                recipes@.len() > 0 ==> prepared(*self, *template) is Ok,
                well_formed(recipe_tree(template.recipe@)) && modify_values_well_formed(self.modify@)
                    ==> forall|j: int| 0 <= j < recipes@.len() ==> recipe_valid(#[trigger] recipes@[j]@),
                forall|j: int|
                    0 <= j < recipes@.len() ==> (#[trigger] recipes@[j])@ == apply_patch(
                        prepared(*self, *template)->Ok_0,
                        patch_of(rt, unrank(lens, j as nat)),
                    ),
            decreases it.remaining(),
        {
            let ghost idx = it.indices@;
            proof {
                lemma_rank_bound(idx, lens);
                lemma_successor_rank(idx, lens);
                lemma_unrank_rank(idx, lens);
            }
            if let Some(patch) = it.next() {
                assert(patch_at(it.tags@, idx) =~= patch_of(rt, idx));
                let mut recipe = self.prepare(template)?;
                let ghost start = recipe@;
                apply_patch_to(&mut recipe, &patch);
                proof {
                    if well_formed(recipe_tree(template.recipe@)) && modify_values_well_formed(self.modify@) {
                        lemma_patch_keeps_valid(start, patch_view(patch@));
                    }
                }
                recipes.push(recipe);
            }
        }
        proof {
            let n = combinations(lens);
            if n > 0 {
                let m = prepared(*self, *template)->Ok_0;
                assert(recipes_view(recipes@) =~= Seq::new(
                    n,
                    |i: int| apply_patch(m, patch_of(rt, unrank(lens, i as nat))),
                ));
            } else {
                assert(recipes_view(recipes@) =~= Seq::<RecipeModel>::empty());
            }
        }
        Ok(recipes)
    }
}

} // verus!

verus! {

/// The recipes of a grammar for each named template in turn; an unknown name fails where
/// it comes.
pub open spec fn expand_names(
    g: Grammar,
    names: Seq<String>,
    ts: Seq<Template>,
    statics: Seq<(Seq<char>, Tree)>,
) -> Result<Seq<RecipeModel>, Fault>
    decreases names.len(),
{
    if names.len() == 0 {
        Ok(Seq::empty())
    } else {
        match expand_names(g, names.drop_last(), ts, statics) {
            Err(f) => Err(f),
            Ok(p) => {
                let pos = template_pos(ts, names.last()@);
                if pos < 0 {
                    Err(Fault::UnknownTemplate(names.last()@))
                } else {
                    match expansion(g, ts[pos], statics) {
                        Err(f) => Err(f),
                        Ok(rs) => Ok(p + rs),
                    }
                }
            },
        }
    }
}

/// The recipes of one grammar: for the templates it names, or else for the default one.
pub open spec fn grammar_output(
    g: Grammar,
    ts: Seq<Template>,
    statics: Seq<(Seq<char>, Tree)>,
    default: Template,
) -> Result<Seq<RecipeModel>, Fault> {
    match g.template {
        None => expansion(g, default, statics),
        Some(names) => expand_names(g, names.items(), ts, statics),
    }
}

/// The recipes of every grammar, in order; the first failure is the result.
pub open spec fn generate_all(
    gs: Seq<Grammar>,
    ts: Seq<Template>,
    statics: Seq<(Seq<char>, Tree)>,
    default: Template,
) -> Result<Seq<RecipeModel>, Fault>
    decreases gs.len(),
{
    if gs.len() == 0 {
        Ok(Seq::empty())
    } else {
        match generate_all(gs.drop_last(), ts, statics, default) {
            Err(f) => Err(f),
            Ok(p) => match grammar_output(gs.last(), ts, statics, default) {
                Err(f) => Err(f),
                Ok(rs) => Ok(p + rs),
            },
        }
    }
}

proof fn lemma_expand_names_err(g: Grammar, names: Seq<String>, ts: Seq<Template>, statics: Seq<(Seq<char>, Tree)>, m: int)
    requires
        0 <= m <= names.len(),
        expand_names(g, names.take(m), ts, statics) is Err,
    ensures
        expand_names(g, names, ts, statics) == expand_names(g, names.take(m), ts, statics),
    decreases names.len(),
{
    if m == names.len() {
        assert(names.take(m) =~= names);
    } else {
        assert(names.drop_last().take(m) =~= names.take(m));
        lemma_expand_names_err(g, names.drop_last(), ts, statics, m);
    }
}

proof fn lemma_generate_err(gs: Seq<Grammar>, ts: Seq<Template>, statics: Seq<(Seq<char>, Tree)>, d: Template, m: int)
    requires
        0 <= m <= gs.len(),
        generate_all(gs.take(m), ts, statics, d) is Err,
    ensures
        generate_all(gs, ts, statics, d) == generate_all(gs.take(m), ts, statics, d),
    decreases gs.len(),
{
    if m == gs.len() {
        assert(gs.take(m) =~= gs);
    } else {
        assert(gs.drop_last().take(m) =~= gs.take(m));
        lemma_generate_err(gs.drop_last(), ts, statics, d, m);
    }
}

/// The manifest is valid and the default template's tree is well formed.
pub open spec fn all_valid_inputs(d: DataGen) -> bool {
    manifest_valid(*d.manifest) && well_formed(recipe_tree(d.default_template.recipe@))
}

/// Generates the recipes of a manifest.
pub struct DataGen<'a> {
    /// The manifest to generate recipes from.
    pub manifest: &'a Manifest,
    /// The template of grammars that name none.
    pub default_template: &'a Template,
}

impl<'a> DataGen<'a> {
    /// Picks the default template: the first named `default`, else the first one. A
    /// manifest without templates fails.
    pub fn new(manifest: &'a Manifest) -> (r: Result<DataGen<'a>, Error>)
        ensures
            manifest.templates@.len() > 0 ==> r is Ok && *r->Ok_0.manifest == *manifest
                && *r->Ok_0.default_template == manifest.templates@[default_pos(
                manifest.templates@,
            )],
            manifest.templates@.len() == 0 ==> r is Err && r->Err_0@ == Fault::MissingDefaultTemplate,
            manifest_valid(*manifest) && r is Ok ==> all_valid_inputs(r->Ok_0),
    {
        proof {
            lemma_name_pos(manifest.templates@, "default"@);
        }
        let default_template = match find_name(&manifest.templates, "default") {
            Some(i) => &manifest.templates[i],
            None => {
                if manifest.templates.len() == 0 {
                    return Err(Error::MissingDefaultTemplate);
                }
                &manifest.templates[0]
            },
        };
        let r = DataGen { manifest, default_template };
        proof {
            let p = default_pos(manifest.templates@);
            assert(0 <= p < manifest.templates@.len());
            assert(*r.default_template == manifest.templates@[p]);
        }
        Ok(r)
    }

    fn grammar_recipes(&self, g: &Grammar) -> (r: Result<Vec<Recipe>, Error>)
        ensures
            match grammar_output(
                *g,
                self.manifest.templates@,
                view_entries(self.manifest.static_props@),
                *self.default_template,
            ) {
                Ok(s) => r is Ok && recipes_view(r->Ok_0@) == s,
                Err(f) => r is Err && r->Err_0@ == f,
            },
            all_valid_inputs(*self) && modify_values_well_formed(g.modify@) && r is Ok
                ==> forall|i: int| 0 <= i < r->Ok_0@.len() ==> recipe_valid(#[trigger] r->Ok_0@[i]@),
    {
        let ghost ts = self.manifest.templates@;
        let ghost st = view_entries(self.manifest.static_props@);
        match &g.template {
            None => g.expand(self.default_template, &self.manifest.static_props),
            Some(names) => {
                let ghost items = names.items();
                let n = names.len();
                let mut it = names.iter();
                let mut out: Vec<Recipe> = Vec::new();
                assert(items.take(0) =~= Seq::<String>::empty());
                assert(recipes_view(out@) =~= Seq::<RecipeModel>::empty());
                while it.index < n
                    invariant
                        *it.inner == *names,
                        g.template == Some(*names),
                        ts == self.manifest.templates@,
                        st == view_entries(self.manifest.static_props@),
                        items == names.items(),
                        n == items.len(),
                        it.index <= n,
                        expand_names(*g, items.take(it.index as int), ts, st) == Ok::<Seq<RecipeModel>, Fault>(
                            recipes_view(out@),
                        ),
                        all_valid_inputs(*self) && modify_values_well_formed(g.modify@) ==> forall|i: int|
                            0 <= i < out@.len() ==> recipe_valid(#[trigger] out@[i]@),
                    decreases n - it.index,
                {
                    let ghost k = it.index;
                    assert(items.take(k + 1).drop_last() =~= items.take(k as int));
                    if let Some(name) = it.next() {
                        assert(items.take(k + 1).last() == *name);
                        let template = match self.manifest.find_template(name.as_str()) {
                            Ok(t) => t,
                            Err(e) => {
                                proof {
                                    let key = items.take(k + 1).last()@;
                                    assert(key == name@);
                                    assert(template_pos(ts, key) < 0);
                                    assert(expand_names(*g, items.take(k + 1), ts, st) is Err);
                                    lemma_expand_names_err(*g, items, ts, st, k + 1);
                                }
                                return Err(e);
                            },
                        };
                        match g.expand(template, &self.manifest.static_props) {
                            Ok(generated) => {
                                let ghost before = out@;
                                let mut generated = generated;
                                let ghost added = generated@;
                                out.append(&mut generated);
                                assert(recipes_view(out@) =~= recipes_view(before) + recipes_view(added));
                                proof {
                                    if all_valid_inputs(*self) && modify_values_well_formed(g.modify@) {
                                        let pos = template_pos(ts, name@);
                                        lemma_name_pos(ts, name@);
                                        assert(0 <= pos < ts.len());
                                        assert(*template == self.manifest.templates@[pos]);
                                        assert(well_formed(recipe_tree(self.manifest.templates@[pos].recipe@)));
                                        assert forall|i: int| 0 <= i < out@.len() implies recipe_valid(#[trigger] out@[i]@) by {
                                            if i >= before.len() {
                                                assert(out@[i] == added[i - before.len()]);
                                            } else {
                                                assert(out@[i] == before[i]);
                                            }
                                        }
                                    }
                                }
                            },
                            Err(e) => {
                                proof {
                                    let key = items.take(k + 1).last()@;
                                    assert(key == name@);
                                    assert(template_pos(ts, key) >= 0);
                                    assert(*template == ts[template_pos(ts, key)]);
                                    assert(expansion(*g, *template, st) is Err);
                                    lemma_expand_names_err(*g, items, ts, st, k + 1);
                                }
                                return Err(e);
                            },
                        }
                    }
                }
                assert(items.take(n as int) =~= items);
                Ok(out)
            },
        }
    }

    /// Generates the recipes of every grammar, in the manifest's order, as
    /// [`generate_all`] states.
    pub fn generate(&self) -> (r: Result<Vec<Recipe>, Error>)
        ensures
            match generate_all(
                self.manifest.grammars@,
                self.manifest.templates@,
                view_entries(self.manifest.static_props@),
                *self.default_template,
            ) {
                Ok(s) => r is Ok && recipes_view(r->Ok_0@) == s,
                Err(f) => r is Err && r->Err_0@ == f,
            },
            all_valid_inputs(*self) && r is Ok ==> forall|i: int|
                0 <= i < r->Ok_0@.len() ==> recipe_valid(#[trigger] r->Ok_0@[i]@),
    {
        let ghost gs = self.manifest.grammars@;
        let ghost ts = self.manifest.templates@;
        let ghost st = view_entries(self.manifest.static_props@);
        let ghost d = *self.default_template;
        let mut recipes: Vec<Recipe> = Vec::new();
        assert(gs.take(0) =~= Seq::<Grammar>::empty());
        assert(recipes_view(recipes@) =~= Seq::<RecipeModel>::empty());
        let mut i: usize = 0;
        while i < self.manifest.grammars.len()
            invariant
                i <= gs.len(),
                gs == self.manifest.grammars@,
                ts == self.manifest.templates@,
                st == view_entries(self.manifest.static_props@),
                d == *self.default_template,
                generate_all(gs.take(i as int), ts, st, d) == Ok::<Seq<RecipeModel>, Fault>(
                    recipes_view(recipes@),
                ),
                all_valid_inputs(*self) ==> forall|j: int|
                    0 <= j < recipes@.len() ==> recipe_valid(#[trigger] recipes@[j]@),
            decreases gs.len() - i,
        {
            assert(gs.take(i + 1).drop_last() =~= gs.take(i as int));
            assert(gs.take(i + 1).last() == gs[i as int]);
            assert(all_valid_inputs(*self) ==> modify_values_well_formed(gs[i as int].modify@));
            match self.grammar_recipes(&self.manifest.grammars[i]) {
                Ok(generated) => {
                    let ghost before = recipes@;
                    let mut generated = generated;
                    let ghost added = generated@;
                    recipes.append(&mut generated);
                    assert(recipes_view(recipes@) =~= recipes_view(before) + recipes_view(added));
                    proof {
                        if all_valid_inputs(*self) {
                            assert forall|j: int| 0 <= j < recipes@.len() implies recipe_valid(#[trigger] recipes@[j]@) by {
                                if j >= before.len() {
                                    assert(recipes@[j] == added[j - before.len()]);
                                } else {
                                    assert(recipes@[j] == before[j]);
                                }
                            }
                        }
                    }
                },
                Err(e) => {
                    proof {
                        lemma_generate_err(gs, ts, st, d, i + 1);
                    }
                    return Err(e);
                },
            }
            i += 1;
        }
        assert(gs.take(i as int) =~= gs);
        Ok(recipes)
    }
}

} // verus!

verus! {

proof fn lemma_replace_keeps_unique(es: Seq<(Seq<char>, Tree)>, f: Seq<char>, r: Seq<char>)
    requires
        unique_keys(es),
    ensures
        unique_keys(replace_entries(es, f, r)),
{
    lemma_replace_entries(es, f, r);
    let x = replace_entries(es, f, r);
    assert forall|i: int, j: int|
        0 <= i < x.len() && 0 <= j < x.len() && i != j implies (#[trigger] x[i]).0 != (#[trigger] x[j]).0 by {
        assert(x[i].0 == es[i].0 && x[j].0 == es[j].0);
    }
}

/// Substitution keeps a recipe valid: it changes no key and no ingredient character.
pub proof fn lemma_patch_keeps_valid(m: RecipeModel, p: Seq<(Seq<char>, Seq<char>)>)
    requires
        recipe_valid(m),
    ensures
        recipe_valid(apply_patch(m, p)),
    decreases p.len(),
{
    if p.len() > 0 {
        lemma_patch_keeps_valid(m, p.drop_last());
        let a = apply_patch(m, p.drop_last());
        let f = placeholder(p.last().0);
        let r = p.last().1;
        let b = replace_recipe(a, f, r);
        lemma_replace_keeps_unique(a.rest, f, r);
        lemma_replace_keeps_unique(a.output.rest, f, r);
        assert forall|i: int| 0 <= i < b.ingredients.len() implies ingredient_valid(#[trigger] b.ingredients[i].1) by {
            lemma_replace_keeps_unique(a.ingredients[i].1.rest, f, r);
        }
        assert forall|i: int, j: int|
            0 <= i < b.ingredients.len() && 0 <= j < b.ingredients.len() && i != j implies (
            #[trigger] b.ingredients[i]).0 != (#[trigger] b.ingredients[j]).0 by {
            assert(b.ingredients[i].0 == a.ingredients[i].0 && b.ingredients[j].0 == a.ingredients[j].0);
        }
    }
}

} // verus!
