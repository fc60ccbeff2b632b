use vstd::prelude::*;
use vstd::string::*;
use crate::edit::{find_key, key_pos, lemma_key_pos_bounds, lemma_key_pos_is, obj_set};
use crate::error::{Error, Fault};
use crate::text::char_text;
use crate::path::{decimal_of, decimal_string, digit_of, digits_value, index_digits, is_digit, is_index, parse_index};
use crate::recipe::{Ingredient, IngredientModel, Recipe, RecipeModel};
use crate::value::{
    Tree, Value, lemma_entries_well_formed, lemma_view_entries, lemma_view_seq, unique_keys,
    view_entries, view_seq, well_formed,
};

verus! {

/// `es` with each of `extra` bound in turn, a later binding replacing an earlier one.
pub open spec fn set_all(es: Seq<(Seq<char>, Tree)>, extra: Seq<(Seq<char>, Tree)>) -> Seq<
    (Seq<char>, Tree),
>
    decreases extra.len(),
{
    if extra.len() == 0 {
        es
    } else {
        let p = set_all(es, extra.drop_last());
        obj_set(p, extra.last().0, extra.last().1)
    }
}

/// The value bound to `k`, if any.
pub open spec fn lookup(es: Seq<(Seq<char>, Tree)>, k: Seq<char>) -> Option<Tree> {
    let p = key_pos(es, k);
    if p >= 0 {
        Some(es[p].1)
    } else {
        None
    }
}

/// The entries whose keys are none of `ks`, in order.
pub open spec fn others(es: Seq<(Seq<char>, Tree)>, ks: Seq<Seq<char>>) -> Seq<(Seq<char>, Tree)>
    decreases es.len(),
{
    if es.len() == 0 {
        Seq::empty()
    } else if ks.contains(es.last().0) {
        others(es.drop_last(), ks)
    } else {
        others(es.drop_last(), ks).push(es.last())
    }
}

/// The size read from a number's text: plain decimal digits whose value fits in a `u8`.
pub open spec fn u8_of_text(s: Seq<char>) -> Option<u8> {
    if s.len() > 0 && s[0] != '+' && is_index(s) && digits_value(index_digits(s)) <= 255 {
        Some(digits_value(index_digits(s)) as u8)
    } else {
        None
    }
}

pub open spec fn str_trees(s: Seq<Seq<char>>) -> Seq<Tree> {
    s.map_values(|x: Seq<char>| Tree::Str(x))
}

/// The tree of an ingredient; its other fields come last and win over a known name.
pub open spec fn ingredient_tree(m: IngredientModel) -> Tree {
    Tree::Object(
        set_all(
            seq![
                ("type"@, Tree::Str(m.item_type)),
                ("code"@, Tree::Str(m.code)),
                ("name"@, match m.name {
                    Some(n) => Tree::Str(n),
                    None => Tree::Null,
                }),
                ("skipVariants"@, Tree::Array(str_trees(m.skip_variants))),
            ],
            m.rest,
        ),
    )
}

/// The ingredient table of a recipe as object entries, keyed by each single character.
pub open spec fn ingredient_table(ings: Seq<(char, IngredientModel)>) -> Seq<(Seq<char>, Tree)> {
    ings.map_values(|e: (char, IngredientModel)| (seq![e.0], ingredient_tree(e.1)))
}

/// The tree of a recipe; its other fields come last and win over a known name.
pub open spec fn recipe_tree(m: RecipeModel) -> Tree {
    Tree::Object(
        set_all(
            seq![
                ("ingredientPattern"@, Tree::Str(m.pattern)),
                ("ingredients"@, Tree::Object(ingredient_table(m.ingredients))),
                ("width"@, Tree::Number(decimal_of(m.width as nat))),
                ("height"@, Tree::Number(decimal_of(m.height as nat))),
                ("output"@, ingredient_tree(m.output)),
            ],
            m.rest,
        ),
    )
}

pub open spec fn invalid(field: Seq<char>) -> Fault {
    Fault::InvalidRecipe { field }
}

pub open spec fn ingredient_keys() -> Seq<Seq<char>> {
    seq!["type"@, "code"@, "name"@, "skipVariants"@]
}

pub open spec fn recipe_keys() -> Seq<Seq<char>> {
    seq!["ingredientPattern"@, "ingredients"@, "width"@, "height"@, "output"@]
}

/// The strings of an array of strings; `None` where an element is no string.
pub open spec fn all_strings(a: Seq<Tree>) -> Option<Seq<Seq<char>>>
    decreases a.len(),
{
    if a.len() == 0 {
        Some(Seq::empty())
    } else {
        match (all_strings(a.drop_last()), a.last()) {
            (Some(p), Tree::Str(s)) => Some(p.push(s)),
            _ => None,
        }
    }
}

/// Reads an ingredient from a tree: `type` and `code` are strings, `name` is a string,
/// null or absent, `skipVariants` an array of strings or absent; the rest is kept.
pub open spec fn parse_ingredient(t: Tree) -> Result<IngredientModel, Fault> {
    match t {
        Tree::Object(es) => match lookup(es, "type"@) {
            Some(Tree::Str(item_type)) => match lookup(es, "code"@) {
                Some(Tree::Str(code)) => {
                    let name: Result<Option<Seq<char>>, Fault> = match lookup(es, "name"@) {
                        None => Ok(None),
                        Some(Tree::Null) => Ok(None),
                        Some(Tree::Str(n)) => Ok(Some(n)),
                        _ => Err(invalid("name"@)),
                    };
                    let skips: Result<Seq<Seq<char>>, Fault> = match lookup(es, "skipVariants"@) {
                        None => Ok(Seq::empty()),
                        Some(Tree::Array(a)) => match all_strings(a) {
                            Some(s) => Ok(s),
                            None => Err(invalid("skipVariants"@)),
                        },
                        _ => Err(invalid("skipVariants"@)),
                    };
                    match (name, skips) {
                        (Err(f), _) => Err(f),
                        (_, Err(f)) => Err(f),
                        (Ok(name), Ok(skip_variants)) => Ok(
                            IngredientModel {
                                item_type,
                                code,
                                name,
                                skip_variants,
                                rest: others(es, ingredient_keys()),
                            },
                        ),
                    }
                },
                _ => Err(invalid("code"@)),
            },
            _ => Err(invalid("type"@)),
        },
        _ => Err(invalid("ingredient"@)),
    }
}

} // verus!

verus! {

/// Reads the ingredient table: each key is a single character.
pub open spec fn parse_ingredients(es: Seq<(Seq<char>, Tree)>) -> Result<Seq<(char, IngredientModel)>, Fault>
    decreases es.len(),
{
    if es.len() == 0 {
        Ok(Seq::empty())
    } else {
        match parse_ingredients(es.drop_last()) {
            Err(f) => Err(f),
            Ok(p) => if es.last().0.len() != 1 {
                Err(invalid("ingredients"@))
            } else {
                match parse_ingredient(es.last().1) {
                    Ok(m) => Ok(p.push((es.last().0[0], m))),
                    Err(f) => Err(f),
                }
            },
        }
    }
}

/// Reads a recipe from a tree; every known field must be present and well formed, and
/// the fields with other names are kept in order.
pub open spec fn parse_recipe(t: Tree) -> Result<RecipeModel, Fault> {
    match t {
        Tree::Object(es) => match lookup(es, "ingredientPattern"@) {
            Some(Tree::Str(pattern)) => match lookup(es, "ingredients"@) {
                Some(Tree::Object(ies)) => match parse_ingredients(ies) {
                    Err(f) => Err(f),
                    Ok(ingredients) => match lookup(es, "width"@) {
                        Some(Tree::Number(w)) if u8_of_text(w) is Some => match lookup(es, "height"@) {
                            Some(Tree::Number(h)) if u8_of_text(h) is Some => match lookup(es, "output"@) {
                                Some(o) => match parse_ingredient(o) {
                                    Err(f) => Err(f),
                                    Ok(output) => Ok(
                                        RecipeModel {
                                            pattern,
                                            ingredients,
                                            width: u8_of_text(w)->Some_0,
                                            height: u8_of_text(h)->Some_0,
                                            output,
                                            rest: others(es, recipe_keys()),
                                        },
                                    ),
                                },
                                None => Err(invalid("output"@)),
                            },
                            _ => Err(invalid("height"@)),
                        },
                        _ => Err(invalid("width"@)),
                    },
                },
                _ => Err(invalid("ingredients"@)),
            },
            _ => Err(invalid("ingredientPattern"@)),
        },
        _ => Err(invalid("recipe"@)),
    }
}

fn get<'a>(es: &'a Vec<(String, Value)>, k: &str) -> (r: Option<&'a Value>)
    ensures
        match r {
            Some(v) => lookup(view_entries(es@), k@) == Some(v@),
            None => lookup(view_entries(es@), k@) is None,
        },
{
    let key = String::from_str(k);
    let pos = find_key(es, &key);
    proof {
        lemma_view_entries(es@);
        lemma_key_pos_bounds(view_entries(es@), key@);
    }
    match pos {
        Some(i) => Some(&es[i].1),
        None => None,
    }
}

fn is_one_of(k: &String, ks: &Vec<String>) -> (r: bool)
    ensures
        r == ks@.map_values(|s: String| s@).contains(k@),
{
    let ghost kv = ks@.map_values(|s: String| s@);
    let mut i: usize = 0;
    while i < ks.len()
        invariant
            i <= ks@.len(),
            kv == ks@.map_values(|s: String| s@),
            forall|j: int| 0 <= j < i ==> kv[j] != k@,
        decreases ks.len() - i,
    {
        if ks[i] == *k {
            assert(kv[i as int] == k@);
            return true;
        }
        i += 1;
    }
    false
}

fn others_exec(es: &Vec<(String, Value)>, ks: &Vec<String>) -> (r: Vec<(String, Value)>)
    ensures
        view_entries(r@) == others(view_entries(es@), ks@.map_values(|s: String| s@)),
{
    let ghost ev = view_entries(es@);
    let ghost kv = ks@.map_values(|s: String| s@);
    proof {
        lemma_view_entries(es@);
        assert(ev.take(0) =~= Seq::<(Seq<char>, Tree)>::empty());
    }
    let mut out: Vec<(String, Value)> = Vec::new();
    let mut i: usize = 0;
    while i < es.len()
        invariant
            i <= es@.len(),
            ev == view_entries(es@),
            kv == ks@.map_values(|s: String| s@),
            ev.len() == es@.len(),
            forall|j: int| 0 <= j < es@.len() ==> #[trigger] ev[j] == (es@[j].0@, es@[j].1@),
            view_entries(out@) == others(ev.take(i as int), kv),
        decreases es.len() - i,
    {
        assert(ev.take(i + 1).drop_last() =~= ev.take(i as int));
        assert(ev.take(i + 1).last() == ev[i as int]);
        if !is_one_of(&es[i].0, ks) {
            let k = es[i].0.clone();
            let v = es[i].1.deep_clone();
            let ghost before = out@;
            out.push((k, v));
            assert(out@.drop_last() =~= before);
        }
        i += 1;
    }
    assert(ev.take(i as int) =~= ev);
    out
}

fn lit(s: &str) -> (r: String)
    ensures
        r@ == s@,
{
    String::from_str(s)
}

fn invalid_error(field: &str) -> (e: Error)
    ensures
        e@ == invalid(field@),
{
    Error::InvalidRecipe { field: lit(field) }
}

fn strings_of(a: &Vec<Value>) -> (r: Option<Vec<String>>)
    ensures
        match all_strings(view_seq(a@)) {
            Some(s) => r is Some && r->Some_0@.map_values(|x: String| x@) == s,
            None => r is None,
        },
{
    let ghost av = view_seq(a@);
    proof {
        lemma_view_seq(a@);
        assert(av.take(0) =~= Seq::<Tree>::empty());
    }
    let mut out: Vec<String> = Vec::new();
    let mut i: usize = 0;
    while i < a.len()
        invariant
            i <= a@.len(),
            av == view_seq(a@),
            av.len() == a@.len(),
            forall|j: int| 0 <= j < a@.len() ==> #[trigger] av[j] == a@[j]@,
            all_strings(av.take(i as int)) == Some(out@.map_values(|x: String| x@)),
        decreases a.len() - i,
    {
        assert(av.take(i + 1).drop_last() =~= av.take(i as int));
        assert(av.take(i + 1).last() == av[i as int]);
        match &a[i] {
            Value::String(s) => {
                let ghost before = out@;
                out.push(s.clone());
                assert(out@.map_values(|x: String| x@) =~= before.map_values(|x: String| x@).push(s@));
            },
            _ => {
                proof {
                    lemma_all_strings_none(av, i + 1);
                }
                return None;
            },
        }
        i += 1;
    }
    assert(av.take(i as int) =~= av);
    Some(out)
}

proof fn lemma_all_strings_none(a: Seq<Tree>, m: int)
    requires
        0 <= m <= a.len(),
        all_strings(a.take(m)) is None,
    ensures
        all_strings(a) is None,
    decreases a.len(),
{
    if m == a.len() {
        assert(a.take(m) =~= a);
    } else {
        assert(a.drop_last().take(m) =~= a.take(m));
        lemma_all_strings_none(a.drop_last(), m);
    }
}

fn ingredient_keys_exec() -> (r: Vec<String>)
    ensures
        r@.map_values(|s: String| s@) == ingredient_keys(),
{
    let mut r: Vec<String> = Vec::new();
    r.push(lit("type"));
    r.push(lit("code"));
    r.push(lit("name"));
    r.push(lit("skipVariants"));
    assert(r@.map_values(|s: String| s@) =~= ingredient_keys());
    r
}

fn recipe_keys_exec() -> (r: Vec<String>)
    ensures
        r@.map_values(|s: String| s@) == recipe_keys(),
{
    let mut r: Vec<String> = Vec::new();
    r.push(lit("ingredientPattern"));
    r.push(lit("ingredients"));
    r.push(lit("width"));
    r.push(lit("height"));
    r.push(lit("output"));
    assert(r@.map_values(|s: String| s@) =~= recipe_keys());
    r
}

impl Ingredient {
    /// Reads an ingredient from a value, as [`parse_ingredient`] states.
    pub fn from_value(v: &Value) -> (r: Result<Ingredient, Error>)
        ensures
            match parse_ingredient(v@) {
                Ok(m) => r is Ok && r->Ok_0@ == m,
                Err(f) => r is Err && r->Err_0@ == f,
            },
    {
        match v {
            Value::Object(es) => {
                let item_type = match get(es, "type") {
                    Some(Value::String(s)) => s.clone(),
                    _ => return Err(invalid_error("type")),
                };
                let code = match get(es, "code") {
                    Some(Value::String(s)) => s.clone(),
                    _ => return Err(invalid_error("code")),
                };
                let name = match get(es, "name") {
                    None => None,
                    Some(Value::Null) => None,
                    Some(Value::String(s)) => Some(s.clone()),
                    _ => return Err(invalid_error("name")),
                };
                let skip_variants = match get(es, "skipVariants") {
                    None => Vec::new(),
                    Some(Value::Array(a)) => match strings_of(a) {
                        Some(s) => s,
                        None => return Err(invalid_error("skipVariants")),
                    },
                    _ => return Err(invalid_error("skipVariants")),
                };
                let keys = ingredient_keys_exec();
                let rest = others_exec(es, &keys);
                let r = Ingredient { item_type, code, name, skip_variants, rest };
                assert(r@.skip_variants =~= parse_ingredient(v@)->Ok_0.skip_variants);
                Ok(r)
            },
            _ => Err(invalid_error("ingredient")),
        }
    }
}

} // verus!

verus! {

fn parse_u8(s: &String) -> (r: Option<u8>)
    ensures
        r == u8_of_text(s@),
{
    let t = s.as_str();
    if t.unicode_len() == 0 || t.get_char(0) == '+' {
        return None;
    }
    match parse_index(t) {
        Some(n) => if n <= 255 {
            Some(n as u8)
        } else {
            None
        },
        None => None,
    }
}

fn ingredients_from(ies: &Vec<(String, Value)>) -> (r: Result<Vec<(char, Ingredient)>, Error>)
    ensures
        match parse_ingredients(view_entries(ies@)) {
            Ok(m) => r is Ok && r->Ok_0@.map_values(|e: (char, Ingredient)| (e.0, e.1@)) == m,
            Err(f) => r is Err && r->Err_0@ == f,
        },
{
    let ghost ev = view_entries(ies@);
    proof {
        lemma_view_entries(ies@);
        assert(ev.take(0) =~= Seq::<(Seq<char>, Tree)>::empty());
    }
    let mut out: Vec<(char, Ingredient)> = Vec::new();
    assert(out@.map_values(|e: (char, Ingredient)| (e.0, e.1@)) =~= Seq::<(char, IngredientModel)>::empty());
    let mut i: usize = 0;
    while i < ies.len()
        invariant
            i <= ies@.len(),
            ev == view_entries(ies@),
            ev.len() == ies@.len(),
            forall|j: int| 0 <= j < ies@.len() ==> #[trigger] ev[j] == (ies@[j].0@, ies@[j].1@),
            parse_ingredients(ev.take(i as int)) == Ok::<Seq<(char, IngredientModel)>, Fault>(
                out@.map_values(|e: (char, Ingredient)| (e.0, e.1@)),
            ),
        decreases ies.len() - i,
    {
        assert(ev.take(i + 1).drop_last() =~= ev.take(i as int));
        assert(ev.take(i + 1).last() == ev[i as int]);
        let key = ies[i].0.as_str();
        if key.unicode_len() != 1 {
            proof {
                lemma_parse_ingredients_err(ev, i + 1);
            }
            return Err(invalid_error("ingredients"));
        }
        let c = key.get_char(0);
        match Ingredient::from_value(&ies[i].1) {
            Ok(ing) => {
                let ghost before = out@;
                out.push((c, ing));
                assert(out@.map_values(|e: (char, Ingredient)| (e.0, e.1@)) =~= before.map_values(
                    |e: (char, Ingredient)| (e.0, e.1@),
                ).push((c, out@.last().1@)));
            },
            Err(e) => {
                proof {
                    lemma_parse_ingredients_err(ev, i + 1);
                }
                return Err(e);
            },
        }
        i += 1;
    }
    assert(ev.take(i as int) =~= ev);
    Ok(out)
}

proof fn lemma_parse_ingredients_err(es: Seq<(Seq<char>, Tree)>, m: int)
    requires
        0 <= m <= es.len(),
        parse_ingredients(es.take(m)) is Err,
    ensures
        parse_ingredients(es) == parse_ingredients(es.take(m)),
    decreases es.len(),
{
    if m == es.len() {
        assert(es.take(m) =~= es);
    } else {
        assert(es.drop_last().take(m) =~= es.take(m));
        lemma_parse_ingredients_err(es.drop_last(), m);
    }
}

impl Recipe {
    /// Reads a recipe from a value, as [`parse_recipe`] states.
    pub fn from_value(v: &Value) -> (r: Result<Recipe, Error>)
        ensures
            match parse_recipe(v@) {
                Ok(m) => r is Ok && r->Ok_0@ == m,
                Err(f) => r is Err && r->Err_0@ == f,
            },
            well_formed(v@) && r is Ok ==> recipe_valid(r->Ok_0@),
    {
        proof {
            if well_formed(v@) && parse_recipe(v@) is Ok {
                lemma_parsed_recipe_valid(v@);
            }
        }
        match v {
            Value::Object(es) => {
                let pattern = match get(es, "ingredientPattern") {
                    Some(Value::String(s)) => s.clone(),
                    _ => return Err(invalid_error("ingredientPattern")),
                };
                let ingredients = match get(es, "ingredients") {
                    Some(Value::Object(ies)) => ingredients_from(ies)?,
                    _ => return Err(invalid_error("ingredients")),
                };
                let width = match get(es, "width") {
                    Some(Value::Number(w)) => match parse_u8(w) {
                        Some(n) => n,
                        None => return Err(invalid_error("width")),
                    },
                    _ => return Err(invalid_error("width")),
                };
                let height = match get(es, "height") {
                    Some(Value::Number(h)) => match parse_u8(h) {
                        Some(n) => n,
                        None => return Err(invalid_error("height")),
                    },
                    _ => return Err(invalid_error("height")),
                };
                let output = match get(es, "output") {
                    Some(o) => Ingredient::from_value(o)?,
                    None => return Err(invalid_error("output")),
                };
                let keys = recipe_keys_exec();
                let rest = others_exec(es, &keys);
                let r = Recipe { pattern, ingredients, width, height, output, rest };
                Ok(r)
            },
            _ => Err(invalid_error("recipe")),
        }
    }
}

} // verus!

verus! {

fn obj_insert(es: &mut Vec<(String, Value)>, k: String, v: Value)
    ensures
        view_entries(final(es)@) == obj_set(view_entries(old(es)@), k@, v@),
{
    let ghost ev = view_entries(es@);
    proof {
        lemma_view_entries(es@);
        lemma_key_pos_bounds(ev, k@);
    }
    match find_key(es, &k) {
        Some(i) => {
            es.set(i, (k, v));
        },
        None => {
            es.push((k, v));
        },
    }
    proof {
        lemma_view_entries(es@);
    }
    assert(view_entries(es@) =~= obj_set(ev, k@, v@));
}

fn insert_all(es: &mut Vec<(String, Value)>, extra: &Vec<(String, Value)>)
    ensures
        view_entries(final(es)@) == set_all(view_entries(old(es)@), view_entries(extra@)),
{
    let ghost xv = view_entries(extra@);
    let ghost e0 = view_entries(es@);
    proof {
        lemma_view_entries(extra@);
        assert(xv.take(0) =~= Seq::<(Seq<char>, Tree)>::empty());
    }
    let mut i: usize = 0;
    while i < extra.len()
        invariant
            i <= extra@.len(),
            xv == view_entries(extra@),
            xv.len() == extra@.len(),
            e0 == view_entries(old(es)@),
            forall|j: int| 0 <= j < extra@.len() ==> #[trigger] xv[j] == (extra@[j].0@, extra@[j].1@),
            view_entries(es@) == set_all(e0, xv.take(i as int)),
        decreases extra.len() - i,
    {
        assert(xv.take(i + 1).drop_last() =~= xv.take(i as int));
        assert(xv.take(i + 1).last() == xv[i as int]);
        let k = extra[i].0.clone();
        let v = extra[i].1.deep_clone();
        obj_insert(es, k, v);
        i += 1;
    }
    assert(xv.take(i as int) =~= xv);
}

impl Ingredient {
    /// The tree of the ingredient, as [`ingredient_tree`] states.
    pub fn to_value(&self) -> (r: Value)
        ensures
            r@ == ingredient_tree(self@),
    {
        let mut skips: Vec<Value> = Vec::new();
        let mut i: usize = 0;
        while i < self.skip_variants.len()
            invariant
                i <= self.skip_variants@.len(),
                skips@.len() == i,
                forall|j: int| 0 <= j < i ==> (#[trigger] skips@[j])@ == Tree::Str(self.skip_variants@[j]@),
            decreases self.skip_variants.len() - i,
        {
            skips.push(Value::String(self.skip_variants[i].clone()));
            i += 1;
        }
        proof {
            lemma_view_seq(skips@);
            assert(view_seq(skips@) =~= str_trees(self@.skip_variants));
        }
        let name = match &self.name {
            Some(n) => Value::String(n.clone()),
            None => Value::Null,
        };
        let mut es: Vec<(String, Value)> = Vec::new();
        es.push((lit("type"), Value::String(self.item_type.clone())));
        es.push((lit("code"), Value::String(self.code.clone())));
        es.push((lit("name"), name));
        es.push((lit("skipVariants"), Value::Array(skips)));
        let ghost base = view_entries(es@);
        proof {
            lemma_view_entries(es@);
        }
        assert(base =~= seq![
            ("type"@, Tree::Str(self@.item_type)),
            ("code"@, Tree::Str(self@.code)),
            ("name"@, match self@.name {
                Some(n) => Tree::Str(n),
                None => Tree::Null,
            }),
            ("skipVariants"@, Tree::Array(str_trees(self@.skip_variants))),
        ]);
        insert_all(&mut es, &self.rest);
        assert(view_entries(es@) == set_all(base, self@.rest));
        let ghost m = self@;
        let ghost lit_seq = seq![
            ("type"@, Tree::Str(m.item_type)),
            ("code"@, Tree::Str(m.code)),
            ("name"@, match m.name {
                Some(n) => Tree::Str(n),
                None => Tree::Null,
            }),
            ("skipVariants"@, Tree::Array(str_trees(m.skip_variants))),
        ];
        assert(ingredient_tree(m) == Tree::Object(set_all(lit_seq, m.rest)));
        assert(lit_seq == base);
        Value::Object(es)
    }
}

impl Recipe {
    /// The tree of the recipe, as [`recipe_tree`] states.
    pub fn to_value(&self) -> (r: Value)
        ensures
            r@ == recipe_tree(self@),
    {
        let mut ies: Vec<(String, Value)> = Vec::new();
        let mut i: usize = 0;
        while i < self.ingredients.len()
            invariant
                i <= self.ingredients@.len(),
                ies@.len() == i,
                forall|j: int| 0 <= j < i ==> (#[trigger] ies@[j]).0@ == seq![self.ingredients@[j].0]
                    && ies@[j].1@ == ingredient_tree(self.ingredients@[j].1@),
            decreases self.ingredients.len() - i,
        {
            let c = self.ingredients[i].0;
            let key = char_text(c);
            ies.push((key, self.ingredients[i].1.to_value()));
            i += 1;
        }
        proof {
            lemma_view_entries(ies@);
            assert(view_entries(ies@) =~= ingredient_table(self@.ingredients));
        }
        let mut es: Vec<(String, Value)> = Vec::new();
        es.push((lit("ingredientPattern"), Value::String(self.pattern.clone())));
        es.push((lit("ingredients"), Value::Object(ies)));
        es.push((lit("width"), Value::Number(decimal_string(self.width as usize))));
        es.push((lit("height"), Value::Number(decimal_string(self.height as usize))));
        es.push((lit("output"), self.output.to_value()));
        proof {
            lemma_view_entries(es@);
        }
        assert(view_entries(es@) =~= seq![
            ("ingredientPattern"@, Tree::Str(self@.pattern)),
            ("ingredients"@, Tree::Object(ingredient_table(self@.ingredients))),
            ("width"@, Tree::Number(decimal_of(self@.width as nat))),
            ("height"@, Tree::Number(decimal_of(self@.height as nat))),
            ("output"@, ingredient_tree(self@.output)),
        ]);
        insert_all(&mut es, &self.rest);
        Value::Object(es)
    }
}

} // verus!

verus! {

/// The other fields of an ingredient bind each name once and none of the known names.
pub open spec fn ingredient_extras_ok(m: IngredientModel) -> bool {
    &&& unique_keys(m.rest)
    &&& forall|i: int| 0 <= i < m.rest.len() ==> !ingredient_keys().contains(#[trigger] m.rest[i].0)
}

/// The other fields of a recipe and of its ingredients bind each name once and none of
/// the known names.
pub open spec fn recipe_extras_ok(m: RecipeModel) -> bool {
    &&& unique_keys(m.rest)
    &&& forall|i: int| 0 <= i < m.rest.len() ==> !recipe_keys().contains(#[trigger] m.rest[i].0)
    &&& ingredient_extras_ok(m.output)
    &&& forall|i: int| 0 <= i < m.ingredients.len() ==> ingredient_extras_ok(#[trigger] m.ingredients[i].1)
}

proof fn lemma_set_all_fresh(base: Seq<(Seq<char>, Tree)>, extra: Seq<(Seq<char>, Tree)>)
    requires
        unique_keys(base + extra),
    ensures
        set_all(base, extra) == base + extra,
    decreases extra.len(),
{
    if extra.len() > 0 {
        let pre = base + extra.drop_last();
        assert((base + extra).drop_last() =~= pre);
        assert(unique_keys(pre)) by {
            assert forall|i: int, j: int|
                0 <= i < pre.len() && 0 <= j < pre.len() && i != j implies (#[trigger] pre[i]).0 != (#[trigger] pre[j]).0 by {
                assert(pre[i] == (base + extra)[i] && pre[j] == (base + extra)[j]);
            }
        }
        lemma_set_all_fresh(base, extra.drop_last());
        let k = extra.last().0;
        lemma_key_pos_bounds(pre, k);
        if key_pos(pre, k) >= 0 {
            let p = key_pos(pre, k);
            assert(pre[p] == (base + extra)[p]);
            assert((base + extra)[(base + extra).len() - 1] == extra.last());
        }
        assert(pre.push(extra.last()) =~= base + extra);
    }
}

proof fn lemma_lookup_at(es: Seq<(Seq<char>, Tree)>, j: int)
    requires
        unique_keys(es),
        0 <= j < es.len(),
    ensures
        lookup(es, es[j].0) == Some(es[j].1),
{
    lemma_key_pos_is(es, es[j].0, j);
}

proof fn lemma_others_known_prefix(base: Seq<(Seq<char>, Tree)>, extra: Seq<(Seq<char>, Tree)>, ks: Seq<Seq<char>>)
    requires
        forall|i: int| 0 <= i < base.len() ==> ks.contains(#[trigger] base[i].0),
        forall|i: int| 0 <= i < extra.len() ==> !ks.contains(#[trigger] extra[i].0),
    ensures
        others(base + extra, ks) == extra,
    decreases base.len() + extra.len(),
{
    if extra.len() > 0 {
        assert((base + extra).drop_last() =~= base + extra.drop_last());
        assert((base + extra).last() == extra.last());
        assert(!ks.contains(extra[extra.len() - 1].0));
        lemma_others_known_prefix(base, extra.drop_last(), ks);
        assert(extra.drop_last().push(extra.last()) =~= extra);
    } else if base.len() > 0 {
        assert(base + extra =~= base);
        assert(base.drop_last() + extra =~= base.drop_last());
        assert(ks.contains(base[base.len() - 1].0));
        lemma_others_known_prefix(base.drop_last(), extra, ks);
    } else {
        assert(base + extra =~= Seq::<(Seq<char>, Tree)>::empty());
    }
}

proof fn lemma_all_strings_of(s: Seq<Seq<char>>)
    ensures
        all_strings(str_trees(s)) == Some(s),
    decreases s.len(),
{
    if s.len() > 0 {
        assert(str_trees(s).drop_last() =~= str_trees(s.drop_last()));
        lemma_all_strings_of(s.drop_last());
        assert(s.drop_last().push(s.last()) =~= s);
    } else {
        assert(str_trees(s) =~= Seq::<Tree>::empty());
    }
}

proof fn lemma_decimal_digits(n: nat)
    ensures
        decimal_of(n).len() > 0,
        forall|i: int| 0 <= i < decimal_of(n).len() ==> is_digit(#[trigger] decimal_of(n)[i]),
        digits_value(decimal_of(n)) == n,
    decreases n,
{
    let d = n % 10;
    assert(is_digit(digit_of(d)) && digit_of(d) as nat - '0' as nat == d);
    if n < 10 {
        let s = decimal_of(n);
        assert(n % 10 == n);
        assert(s.drop_last() =~= Seq::<char>::empty());
        assert(digits_value(s) == digits_value(s.drop_last()) * 10 + (s.last() as nat - '0' as nat) as nat);
        assert(digits_value(s.drop_last()) == 0);
    } else {
        lemma_decimal_digits(n / 10);
        let s = decimal_of(n);
        assert(s.drop_last() =~= decimal_of(n / 10));
        assert(s.last() == digit_of(d));
        vstd::arithmetic::div_mod::lemma_fundamental_div_mod(n as int, 10);
        assert(digits_value(s) == digits_value(s.drop_last()) * 10 + (s.last() as nat - '0' as nat) as nat);
        assert forall|i: int| 0 <= i < s.len() implies is_digit(#[trigger] s[i]) by {
            if i < s.len() - 1 {
                assert(s[i] == decimal_of(n / 10)[i]);
            }
        }
    }
}

proof fn lemma_u8_text(n: u8)
    ensures
        u8_of_text(decimal_of(n as nat)) == Some(n),
{
    lemma_decimal_digits(n as nat);
    let s = decimal_of(n as nat);
    assert(s[0] != '+');
    assert(index_digits(s) == s);
}

proof fn lemma_ingredient_round_trip(m: IngredientModel)
    requires
        ingredient_extras_ok(m),
    ensures
        parse_ingredient(ingredient_tree(m)) == Ok::<IngredientModel, Fault>(m),
{
    reveal_strlit("type");
    reveal_strlit("code");
    reveal_strlit("name");
    reveal_strlit("skipVariants");
    let base = seq![
        ("type"@, Tree::Str(m.item_type)),
        ("code"@, Tree::Str(m.code)),
        ("name"@, match m.name {
            Some(n) => Tree::Str(n),
            None => Tree::Null,
        }),
        ("skipVariants"@, Tree::Array(str_trees(m.skip_variants))),
    ];
    let es = base + m.rest;
    assert(base[0].0[0] == 't' && base[1].0[0] == 'c' && base[2].0[0] == 'n' && base[3].0[0] == 's');
    assert forall|i: int| 0 <= i < base.len() implies ingredient_keys().contains(#[trigger] base[i].0) by {
        assert(ingredient_keys()[i] == base[i].0);
    }
    assert(unique_keys(es)) by {
        assert forall|i: int, j: int|
            0 <= i < es.len() && 0 <= j < es.len() && i != j implies (#[trigger] es[i]).0 != (#[trigger] es[j]).0 by {
            if i >= 4 && j >= 4 {
                assert(es[i] == m.rest[i - 4] && es[j] == m.rest[j - 4]);
            } else if i < 4 && j < 4 {
                assert(es[i] == base[i] && es[j] == base[j]);
                if es[i].0 == es[j].0 {
                    assert(base[i].0[0] == base[j].0[0]);
                }
            } else if i >= 4 {
                assert(es[i] == m.rest[i - 4]);
                assert(ingredient_keys().contains(es[j].0));
            } else if j >= 4 {
                assert(es[j] == m.rest[j - 4]);
                assert(ingredient_keys().contains(es[i].0));
            }
        }
    }
    lemma_set_all_fresh(base, m.rest);
    lemma_lookup_at(es, 0);
    lemma_lookup_at(es, 1);
    lemma_lookup_at(es, 2);
    lemma_lookup_at(es, 3);
    lemma_all_strings_of(m.skip_variants);
    lemma_others_known_prefix(base, m.rest, ingredient_keys());
}

} // verus!

verus! {

proof fn lemma_parse_ingredients_of(ings: Seq<(char, IngredientModel)>)
    requires
        forall|i: int| 0 <= i < ings.len() ==> ingredient_extras_ok(#[trigger] ings[i].1),
    ensures
        parse_ingredients(ingredient_table(ings)) == Ok::<Seq<(char, IngredientModel)>, Fault>(ings),
    decreases ings.len(),
{
    let es = ingredient_table(ings);
    if ings.len() > 0 {
        let pre = ings.drop_last();
        assert(es.drop_last() =~= ingredient_table(pre));
        assert forall|i: int| 0 <= i < pre.len() implies ingredient_extras_ok(#[trigger] pre[i].1) by {
            assert(pre[i] == ings[i]);
        }
        lemma_parse_ingredients_of(pre);
        let last = ings[ings.len() - 1];
        lemma_ingredient_round_trip(last.1);
        assert(es.last() == (seq![last.0], ingredient_tree(last.1)));
        assert(es.last().0.len() == 1 && es.last().0[0] == last.0);
        assert(parse_ingredients(es.drop_last()) == Ok::<Seq<(char, IngredientModel)>, Fault>(pre));
        assert(parse_ingredients(es) == Ok::<Seq<(char, IngredientModel)>, Fault>(pre.push((last.0, last.1))));
        assert(pre.push(last) =~= ings);
    } else {
        assert(es =~= Seq::<(Seq<char>, Tree)>::empty());
        assert(ings =~= Seq::<(char, IngredientModel)>::empty());
    }
}

/// A recipe whose other fields, and those of its ingredients, use each name once and none
/// of the known names comes back unchanged from its tree.
pub proof fn lemma_recipe_round_trip(m: RecipeModel)
    requires
        recipe_extras_ok(m),
    ensures
        parse_recipe(recipe_tree(m)) == Ok::<RecipeModel, Fault>(m),
{
    reveal_strlit("ingredientPattern");
    reveal_strlit("ingredients");
    reveal_strlit("width");
    reveal_strlit("height");
    reveal_strlit("output");
    let base = seq![
        ("ingredientPattern"@, Tree::Str(m.pattern)),
        ("ingredients"@, Tree::Object(ingredient_table(m.ingredients))),
        ("width"@, Tree::Number(decimal_of(m.width as nat))),
        ("height"@, Tree::Number(decimal_of(m.height as nat))),
        ("output"@, ingredient_tree(m.output)),
    ];
    let es = base + m.rest;
    assert(base[0].0[0] == 'i' && base[1].0[0] == 'i' && base[2].0[0] == 'w' && base[3].0[0] == 'h'
        && base[4].0[0] == 'o');
    assert(base[0].0.len() == 17 && base[1].0.len() == 11);
    assert forall|i: int| 0 <= i < base.len() implies recipe_keys().contains(#[trigger] base[i].0) by {
        assert(recipe_keys()[i] == base[i].0);
    }
    assert(unique_keys(es)) by {
        assert forall|i: int, j: int|
            0 <= i < es.len() && 0 <= j < es.len() && i != j implies (#[trigger] es[i]).0 != (#[trigger] es[j]).0 by {
            if i >= 5 && j >= 5 {
                assert(es[i] == m.rest[i - 5] && es[j] == m.rest[j - 5]);
            } else if i < 5 && j < 5 {
                assert(es[i] == base[i] && es[j] == base[j]);
                if es[i].0 == es[j].0 {
                    assert(base[i].0[0] == base[j].0[0]);
                    assert(base[i].0.len() == base[j].0.len());
                }
            } else if i >= 5 {
                assert(es[i] == m.rest[i - 5]);
                assert(recipe_keys().contains(es[j].0));
            } else {
                assert(es[j] == m.rest[j - 5]);
                assert(recipe_keys().contains(es[i].0));
            }
        }
    }
    lemma_set_all_fresh(base, m.rest);
    lemma_lookup_at(es, 0);
    lemma_lookup_at(es, 1);
    lemma_lookup_at(es, 2);
    lemma_lookup_at(es, 3);
    lemma_lookup_at(es, 4);
    lemma_parse_ingredients_of(m.ingredients);
    lemma_u8_text(m.width);
    lemma_u8_text(m.height);
    lemma_ingredient_round_trip(m.output);
    lemma_others_known_prefix(base, m.rest, recipe_keys());
}

} // verus!

verus! {

/// An ingredient binds each of its other field names once.
pub open spec fn ingredient_valid(m: IngredientModel) -> bool {
    unique_keys(m.rest)
}

/// A recipe binds each ingredient character, each of its other field names and those of its
/// ingredients once.
pub open spec fn recipe_valid(m: RecipeModel) -> bool {
    &&& unique_keys(m.rest)
    &&& ingredient_valid(m.output)
    &&& forall|i: int, j: int|
        0 <= i < m.ingredients.len() && 0 <= j < m.ingredients.len() && i != j ==> (
        #[trigger] m.ingredients[i]).0 != (#[trigger] m.ingredients[j]).0
    &&& forall|i: int| 0 <= i < m.ingredients.len() ==> ingredient_valid(#[trigger] m.ingredients[i].1)
}

proof fn lemma_others_unique(es: Seq<(Seq<char>, Tree)>, ks: Seq<Seq<char>>)
    requires
        unique_keys(es),
    ensures
        unique_keys(others(es, ks)),
        forall|i: int|
            0 <= i < others(es, ks).len() ==> exists|j: int|
                0 <= j < es.len() && #[trigger] others(es, ks)[i] == es[j],
    decreases es.len(),
{
    if es.len() > 0 {
        let pre = es.drop_last();
        assert(unique_keys(pre)) by {
            assert forall|i: int, j: int|
                0 <= i < pre.len() && 0 <= j < pre.len() && i != j implies (#[trigger] pre[i]).0 != (#[trigger] pre[j]).0 by {
                assert(pre[i] == es[i] && pre[j] == es[j]);
            }
        }
        lemma_others_unique(pre, ks);
        let o = others(pre, ks);
        if !ks.contains(es.last().0) {
            let r = o.push(es.last());
            assert forall|i: int| 0 <= i < r.len() implies exists|j: int|
                0 <= j < es.len() && #[trigger] r[i] == es[j] by {
                if i < o.len() {
                    let j = choose|j: int| 0 <= j < pre.len() && o[i] == pre[j];
                    assert(r[i] == es[j]);
                } else {
                    assert(r[i] == es[es.len() - 1]);
                }
            }
            assert forall|i: int, j: int|
                0 <= i < r.len() && 0 <= j < r.len() && i != j implies (#[trigger] r[i]).0 != (#[trigger] r[j]).0 by {
                if i < o.len() && j == o.len() {
                    let a = choose|a: int| 0 <= a < pre.len() && o[i] == pre[a];
                    assert(pre[a] == es[a]);
                    assert(es[es.len() - 1] == r[j]);
                } else if j < o.len() && i == o.len() {
                    let a = choose|a: int| 0 <= a < pre.len() && o[j] == pre[a];
                    assert(pre[a] == es[a]);
                    assert(es[es.len() - 1] == r[i]);
                }
            }
        } else {
            assert forall|i: int| 0 <= i < o.len() implies exists|j: int|
                0 <= j < es.len() && #[trigger] o[i] == es[j] by {
                let j = choose|j: int| 0 <= j < pre.len() && o[i] == pre[j];
                assert(o[i] == es[j]);
            }
        }
    }
}

/// The table entry `e` reads as the ingredient `m` under its one-character key.
pub open spec fn entry_read_as(e: (Seq<char>, Tree), m: (char, IngredientModel)) -> bool {
    &&& e.0.len() == 1
    &&& m.0 == e.0[0]
    &&& parse_ingredient(e.1) == Ok::<IngredientModel, Fault>(m.1)
}

proof fn lemma_parse_ingredients_shape(es: Seq<(Seq<char>, Tree)>)
    requires
        parse_ingredients(es) is Ok,
    ensures
        parse_ingredients(es)->Ok_0.len() == es.len(),
        forall|i: int|
            0 <= i < es.len() ==> #[trigger] entry_read_as(es[i], parse_ingredients(es)->Ok_0[i]),
    decreases es.len(),
{
    if es.len() > 0 {
        lemma_parse_ingredients_shape(es.drop_last());
        let p = parse_ingredients(es.drop_last())->Ok_0;
        assert(es.last().0.len() == 1);
        assert(parse_ingredient(es.last().1) is Ok);
        assert(parse_ingredients(es)->Ok_0 == p.push((es.last().0[0], parse_ingredient(es.last().1)->Ok_0)));
        assert forall|i: int|
            0 <= i < es.len() implies #[trigger] entry_read_as(es[i], parse_ingredients(es)->Ok_0[i]) by {
            if i < es.len() - 1 {
                assert(es[i] == es.drop_last()[i]);
                assert(parse_ingredients(es)->Ok_0[i] == p[i]);
            } else {
                assert(es[i] == es.last());
            }
        }
    }
}

proof fn lemma_parse_ingredient_valid(t: Tree)
    requires
        well_formed(t),
        parse_ingredient(t) is Ok,
    ensures
        ingredient_valid(parse_ingredient(t)->Ok_0),
{
    if let Tree::Object(es) = t {
        lemma_others_unique(es, ingredient_keys());
    }
}

/// A recipe read from a tree whose objects bind each key once is valid.
pub proof fn lemma_parsed_recipe_valid(t: Tree)
    requires
        well_formed(t),
        parse_recipe(t) is Ok,
    ensures
        recipe_valid(parse_recipe(t)->Ok_0),
{
    if let Tree::Object(es) = t {
        let m = parse_recipe(t)->Ok_0;
        lemma_others_unique(es, recipe_keys());
        lemma_entries_well_formed(es);
        let pi = key_pos(es, "ingredients"@);
        lemma_key_pos_bounds(es, "ingredients"@);
        let po = key_pos(es, "output"@);
        lemma_key_pos_bounds(es, "output"@);
        assert(lookup(es, "output"@) == Some(es[po].1));
        assert(parse_ingredient(es[po].1) == Ok::<IngredientModel, Fault>(m.output));
        assert(well_formed(es[po].1));
        lemma_parse_ingredient_valid(es[po].1);
        assert(lookup(es, "ingredients"@) == Some(es[pi].1));
        assert(es[pi].1 is Object);
        let ies = es[pi].1->Object_0;
        assert(parse_ingredients(ies) == Ok::<Seq<(char, IngredientModel)>, Fault>(m.ingredients));
        assert(well_formed(es[pi].1));
        lemma_entries_well_formed(ies);
        lemma_parse_ingredients_shape(ies);
        assert forall|i: int| 0 <= i < m.ingredients.len() implies ingredient_valid(#[trigger] m.ingredients[i].1) by {
            assert(entry_read_as(ies[i], m.ingredients[i]));
            assert(well_formed(ies[i].1));
            lemma_parse_ingredient_valid(ies[i].1);
        }
        assert forall|i: int, j: int|
            0 <= i < m.ingredients.len() && 0 <= j < m.ingredients.len() && i != j implies (
            #[trigger] m.ingredients[i]).0 != (#[trigger] m.ingredients[j]).0 by {
            assert(ies[i].0 != ies[j].0);
            assert(entry_read_as(ies[i], m.ingredients[i]));
            assert(entry_read_as(ies[j], m.ingredients[j]));
            if ies[i].0[0] == ies[j].0[0] {
                assert(ies[i].0 =~= ies[j].0);
            }
        }
    }
}

} // verus!
