use vstd::prelude::*;
use crate::error::Error;
use crate::patch::Substitution;
use crate::text::{replace_all, replace_text};
use crate::value::{
    Tree, Value, lemma_size_entries, lemma_size_seq, lemma_view_entries, lemma_view_seq, size,
    view_entries, view_seq,
};

verus! {

/// An ingredient of a recipe. Every string in it is a substitution target.
#[derive(Debug, Clone, PartialEq)]
pub struct Ingredient {
    pub item_type: String,
    pub code: String,
    pub name: Option<String>,
    pub skip_variants: Vec<String>,
    /// Fields with no meaning here, kept as they are.
    pub rest: Vec<(String, Value)>,
}

/// A crafting recipe.
#[derive(Debug, Clone, PartialEq)]
pub struct Recipe {
    /// The ingredient pattern.
    pub pattern: String,
    pub ingredients: Vec<(char, Ingredient)>,
    pub width: u8,
    pub height: u8,
    pub output: Ingredient,
    /// Fields with no meaning here, kept as they are.
    pub rest: Vec<(String, Value)>,
}

/// A named recipe that seeds generation.
#[derive(Debug, Clone, PartialEq)]
pub struct Template {
    pub name: String,
    pub recipe: Recipe,
}

/// The mathematical model of an [`Ingredient`].
pub ghost struct IngredientModel {
    pub item_type: Seq<char>,
    pub code: Seq<char>,
    pub name: Option<Seq<char>>,
    pub skip_variants: Seq<Seq<char>>,
    pub rest: Seq<(Seq<char>, Tree)>,
}

/// The mathematical model of a [`Recipe`].
pub ghost struct RecipeModel {
    pub pattern: Seq<char>,
    pub ingredients: Seq<(char, IngredientModel)>,
    pub width: u8,
    pub height: u8,
    pub output: IngredientModel,
    pub rest: Seq<(Seq<char>, Tree)>,
}

pub open spec fn option_view(o: Option<String>) -> Option<Seq<char>> {
    match o {
        Some(s) => Some(s@),
        None => None,
    }
}

impl View for Ingredient {
    type V = IngredientModel;

    open spec fn view(&self) -> IngredientModel {
        IngredientModel {
            item_type: self.item_type@,
            code: self.code@,
            name: option_view(self.name),
            skip_variants: self.skip_variants@.map_values(|s: String| s@),
            rest: view_entries(self.rest@),
        }
    }
}

impl View for Recipe {
    type V = RecipeModel;

    open spec fn view(&self) -> RecipeModel {
        RecipeModel {
            pattern: self.pattern@,
            ingredients: self.ingredients@.map_values(|e: (char, Ingredient)| (e.0, e.1@)),
            width: self.width,
            height: self.height,
            output: self.output@,
            rest: view_entries(self.rest@),
        }
    }
}

/// `t` with the replacement made in every string it holds.
pub open spec fn replace_tree(t: Tree, f: Seq<char>, r: Seq<char>) -> Tree
    decreases t,
{
    match t {
        Tree::Str(s) => Tree::Str(replace_all(s, f, r)),
        Tree::Array(a) => Tree::Array(replace_trees(a, f, r)),
        Tree::Object(es) => Tree::Object(replace_entries(es, f, r)),
        _ => t,
    }
}

pub open spec fn replace_trees(s: Seq<Tree>, f: Seq<char>, r: Seq<char>) -> Seq<Tree>
    decreases s,
{
    if s.len() == 0 {
        Seq::empty()
    } else {
        replace_trees(s.drop_last(), f, r).push(replace_tree(s.last(), f, r))
    }
}

/// The entries with the replacement made in their values; keys stay.
pub open spec fn replace_entries(es: Seq<(Seq<char>, Tree)>, f: Seq<char>, r: Seq<char>) -> Seq<
    (Seq<char>, Tree),
>
    decreases es,
{
    if es.len() == 0 {
        Seq::empty()
    } else {
        replace_entries(es.drop_last(), f, r).push((es.last().0, replace_tree(es.last().1, f, r)))
    }
}

pub proof fn lemma_replace_trees(s: Seq<Tree>, f: Seq<char>, r: Seq<char>)
    ensures
        replace_trees(s, f, r).len() == s.len(),
        forall|i: int|
            0 <= i < s.len() ==> #[trigger] replace_trees(s, f, r)[i] == replace_tree(s[i], f, r),
    decreases s.len(),
{
    if s.len() > 0 {
        lemma_replace_trees(s.drop_last(), f, r);
    }
}

pub proof fn lemma_replace_entries(es: Seq<(Seq<char>, Tree)>, f: Seq<char>, r: Seq<char>)
    ensures
        replace_entries(es, f, r).len() == es.len(),
        forall|i: int|
            0 <= i < es.len() ==> #[trigger] replace_entries(es, f, r)[i] == (
                es[i].0,
                replace_tree(es[i].1, f, r),
            ),
    decreases es.len(),
{
    if es.len() > 0 {
        lemma_replace_entries(es.drop_last(), f, r);
    }
}

pub open spec fn replace_opt(o: Option<Seq<char>>, f: Seq<char>, r: Seq<char>) -> Option<Seq<char>> {
    match o {
        Some(s) => Some(replace_all(s, f, r)),
        None => None,
    }
}

/// The ingredient with the replacement made in every string field.
pub open spec fn replace_ingredient(m: IngredientModel, f: Seq<char>, r: Seq<char>) -> IngredientModel {
    IngredientModel {
        item_type: replace_all(m.item_type, f, r),
        code: replace_all(m.code, f, r),
        name: replace_opt(m.name, f, r),
        skip_variants: m.skip_variants.map_values(|s: Seq<char>| replace_all(s, f, r)),
        rest: replace_entries(m.rest, f, r),
    }
}

/// The recipe with the replacement made in the pattern, every ingredient, the output and
/// every string in the other fields.
pub open spec fn replace_recipe(m: RecipeModel, f: Seq<char>, r: Seq<char>) -> RecipeModel {
    RecipeModel {
        pattern: replace_all(m.pattern, f, r),
        ingredients: m.ingredients.map_values(
            |e: (char, IngredientModel)| (e.0, replace_ingredient(e.1, f, r)),
        ),
        width: m.width,
        height: m.height,
        output: replace_ingredient(m.output, f, r),
        rest: replace_entries(m.rest, f, r),
    }
}

/// The placeholder that stands for a tag: its name between two `%`.
pub open spec fn placeholder(name: Seq<char>) -> Seq<char> {
    seq!['%'] + name + seq!['%']
}

/// The recipe after each substitution of a patch, in order.
pub open spec fn apply_patch(m: RecipeModel, p: Seq<(Seq<char>, Seq<char>)>) -> RecipeModel
    decreases p.len(),
{
    if p.len() == 0 {
        m
    } else {
        replace_recipe(apply_patch(m, p.drop_last()), placeholder(p.last().0), p.last().1)
    }
}

/// In-place replacement of every occurrence of a text in the strings of a value.
pub trait ReplaceMut: Sized {
    /// `after` is `before` with every occurrence of `target` replaced by `value`.
    spec fn replaced(before: Self, after: Self, target: Seq<char>, value: Seq<char>) -> bool;

    fn replace_mut(&mut self, target: &str, value: &str)
        requires
            target@.len() > 0,
        ensures
            Self::replaced(*old(self), *final(self), target@, value@),
    ;
}

fn replace_in_value(v: &mut Value, target: &str, value: &str)
    requires
        target@.len() > 0,
    ensures
        final(v)@ == replace_tree(old(v)@, target@, value@),
    decreases size(*old(v)),
{
    match v {
        Value::String(s) => {
            *s = replace_text(s.as_str(), target, value);
        },
        Value::Array(a) => {
            let ghost oa = a@;
            let mut i: usize = 0;
            while i < a.len()
                invariant
                    target@.len() > 0,
                    old(v)->Array_0@ == oa, *old(v) is Array,
                    a@.len() == oa.len(),
                    i <= a@.len(),
                    forall|j: int| 0 <= j < i ==> (#[trigger] a@[j])@ == replace_tree(oa[j]@, target@, value@),
                    forall|j: int| i <= j < a@.len() ==> #[trigger] a@[j] == oa[j],
                decreases a.len() - i,
            {
                proof {
                    lemma_size_seq(oa, i as int);
                }
                replace_in_value(&mut a[i], target, value);
                i += 1;
            }
            proof {
                lemma_view_seq(a@);
                lemma_view_seq(oa);
                lemma_replace_trees(view_seq(oa), target@, value@);
                assert(view_seq(a@) =~= replace_trees(view_seq(oa), target@, value@));
            }
        },
        Value::Object(es) => {
            let ghost oe = es@;
            let mut i: usize = 0;
            while i < es.len()
                invariant
                    target@.len() > 0,
                    old(v)->Object_0@ == oe, *old(v) is Object,
                    es@.len() == oe.len(),
                    i <= es@.len(),
                    forall|j: int| 0 <= j < i ==> (#[trigger] es@[j]).1@ == replace_tree(oe[j].1@, target@, value@),
                    forall|j: int| 0 <= j < es@.len() ==> (#[trigger] es@[j]).0 == oe[j].0,
                    forall|j: int| i <= j < es@.len() ==> (#[trigger] es@[j]).1 == oe[j].1,
                decreases es.len() - i,
            {
                proof {
                    lemma_size_entries(oe, i as int);
                }
                replace_in_value(&mut es[i].1, target, value);
                i += 1;
            }
            proof {
                lemma_view_entries(es@);
                lemma_view_entries(oe);
                lemma_replace_entries(view_entries(oe), target@, value@);
                assert(view_entries(es@) =~= replace_entries(view_entries(oe), target@, value@));
            }
        },
        _ => {},
    }
}

impl ReplaceMut for Value {
    open spec fn replaced(before: Value, after: Value, target: Seq<char>, value: Seq<char>) -> bool {
        after@ == replace_tree(before@, target, value)
    }

    fn replace_mut(&mut self, target: &str, value: &str) {
        replace_in_value(self, target, value);
    }
}

fn replace_in_entries(es: &mut Vec<(String, Value)>, target: &str, value: &str)
    requires
        target@.len() > 0,
    ensures
        view_entries(final(es)@) == replace_entries(view_entries(old(es)@), target@, value@),
{
    let ghost oe = es@;
    let mut i: usize = 0;
    while i < es.len()
        invariant
            target@.len() > 0,
            oe == old(es)@,
            es@.len() == oe.len(),
            i <= es@.len(),
            forall|j: int| 0 <= j < i ==> (#[trigger] es@[j]).1@ == replace_tree(oe[j].1@, target@, value@),
            forall|j: int| 0 <= j < es@.len() ==> (#[trigger] es@[j]).0 == oe[j].0,
            forall|j: int| i <= j < es@.len() ==> (#[trigger] es@[j]).1 == oe[j].1,
        decreases es.len() - i,
    {
        es[i].1.replace_mut(target, value);
        i += 1;
    }
    proof {
        lemma_view_entries(es@);
        lemma_view_entries(oe);
        lemma_replace_entries(view_entries(oe), target@, value@);
        assert(view_entries(es@) =~= replace_entries(view_entries(oe), target@, value@));
    }
}

impl ReplaceMut for Ingredient {
    open spec fn replaced(before: Ingredient, after: Ingredient, target: Seq<char>, value: Seq<char>) -> bool {
        after@ == replace_ingredient(before@, target, value)
    }

    fn replace_mut(&mut self, target: &str, value: &str) {
        self.code = replace_text(self.code.as_str(), target, value);
        self.item_type = replace_text(self.item_type.as_str(), target, value);
        match &mut self.name {
            Some(name) => {
                *name = replace_text(name.as_str(), target, value);
            },
            None => {},
        }
        assert(option_view(self.name) == replace_opt(option_view(old(self).name), target@, value@));
        let ghost ov = self.skip_variants@;
        let ghost code0 = self.code;
        let ghost type0 = self.item_type;
        let ghost name0 = self.name;
        let mut i: usize = 0;
        while i < self.skip_variants.len()
            invariant
                target@.len() > 0,
                self.code == code0,
                self.item_type == type0,
                self.name == name0,
                self.rest == old(self).rest,
                ov == old(self).skip_variants@,
                self.skip_variants@.len() == ov.len(),
                i <= ov.len(),
                forall|j: int| 0 <= j < i ==> (#[trigger] self.skip_variants@[j])@ == replace_all(ov[j]@, target@, value@),
                forall|j: int| i <= j < ov.len() ==> #[trigger] self.skip_variants@[j] == ov[j],
            decreases self.skip_variants.len() - i,
        {
            let replaced = replace_text(self.skip_variants[i].as_str(), target, value);
            self.skip_variants.set(i, replaced);
            i += 1;
        }
        replace_in_entries(&mut self.rest, target, value);
        assert(self@.skip_variants =~= replace_ingredient(old(self)@, target@, value@).skip_variants);
        assert(self@ == replace_ingredient(old(self)@, target@, value@));
    }
}

impl Substitution {
    /// Replaces every `%target%` with the value throughout the recipe: the pattern, every
    /// ingredient, the output and every string in the other fields.
    pub fn apply(&self, recipe: &mut Recipe) -> (r: Result<(), Error>)
        ensures
            r is Ok,
            final(recipe)@ == replace_recipe(old(recipe)@, placeholder(self.target@), self.value@),
    {
        let mut target = String::from_str("%");
        target.append(self.target.as_str());
        target.append("%");
        proof {
            reveal_strlit("%");
            assert(target@ =~= placeholder(self.target@));
        }
        let t = target.as_str();
        let v = self.value.as_str();
        let ghost oi = recipe.ingredients@;
        let mut i: usize = 0;
        while i < recipe.ingredients.len()
            invariant
                t@ == placeholder(self.target@),
                v@ == self.value@,
                oi == old(recipe).ingredients@,
                recipe.pattern == old(recipe).pattern,
                recipe.output == old(recipe).output,
                recipe.rest == old(recipe).rest,
                recipe.width == old(recipe).width,
                recipe.height == old(recipe).height,
                recipe.ingredients@.len() == oi.len(),
                i <= oi.len(),
                forall|j: int| 0 <= j < i ==> (#[trigger] recipe.ingredients@[j]).1@ == replace_ingredient(oi[j].1@, t@, v@),
                forall|j: int| 0 <= j < oi.len() ==> (#[trigger] recipe.ingredients@[j]).0 == oi[j].0,
                forall|j: int| i <= j < oi.len() ==> (#[trigger] recipe.ingredients@[j]).1 == oi[j].1,
            decreases recipe.ingredients.len() - i,
        {
            recipe.ingredients[i].1.replace_mut(t, v);
            i += 1;
        }
        recipe.output.replace_mut(t, v);
        recipe.pattern = replace_text(recipe.pattern.as_str(), t, v);
        replace_in_entries(&mut recipe.rest, t, v);
        assert(recipe@.ingredients =~= old(recipe)@.ingredients.map_values(
            |e: (char, IngredientModel)| (e.0, replace_ingredient(e.1, t@, v@)),
        ));
        Ok(())
    }
}

} // verus!
