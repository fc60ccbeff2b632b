use recipe_datagen::datagen::{DataGen, Grammar, Manifest, OneOrMany};
use recipe_datagen::edit::{Modify, Remove};
use recipe_datagen::error::Error;
use recipe_datagen::patch::{PatchIterator, Substitution};
use recipe_datagen::path::{parse_index, DotPath, DotPathIterator, DotToken};
use recipe_datagen::recipe::{Ingredient, Recipe, ReplaceMut, Template};
use recipe_datagen::tags::{resolve_tag, resolve_tag_value, Tag};
use recipe_datagen::value::Value;
use std::time::Instant;

fn s(x: &str) -> String {
    x.to_string()
}

fn text(x: &str) -> Value {
    Value::String(s(x))
}

fn num(x: &str) -> Value {
    Value::Number(s(x))
}

fn obj(entries: Vec<(&str, Value)>) -> Value {
    Value::Object(entries.into_iter().map(|(k, v)| (s(k), v)).collect())
}

fn field<'a>(v: &'a Value, key: &str) -> &'a Value {
    match v {
        Value::Object(es) => &es.iter().find(|(k, _)| k == key).unwrap().1,
        _ => panic!("not an object"),
    }
}

fn ingredient(code: &str) -> Ingredient {
    Ingredient {
        item_type: s("item"),
        code: s(code),
        name: None,
        skip_variants: vec![],
        rest: vec![],
    }
}

fn recipe(pattern: &str) -> Recipe {
    Recipe {
        pattern: s(pattern),
        ingredients: vec![('m', ingredient("game:%m%"))],
        width: 1,
        height: 1,
        output: ingredient("game:%m%_shovel"),
        rest: vec![],
    }
}

fn tag(name: &str, values: &[&str]) -> Tag {
    Tag { name: s(name), values: values.iter().map(|v| s(v)).collect() }
}

fn grammar(template: Option<OneOrMany<String>>, tags: Vec<Tag>) -> Grammar {
    Grammar { template, tags, remove: vec![], modify: vec![], rest: vec![] }
}

fn manifest(templates: Vec<Template>, grammars: Vec<Grammar>) -> Manifest {
    Manifest { output: s("out.json"), static_props: vec![], templates, grammars }
}

fn from_json(v: &serde_json::Value) -> Value {
    match v {
        serde_json::Value::Null => Value::Null,
        serde_json::Value::Bool(b) => Value::Bool(*b),
        serde_json::Value::Number(n) => Value::Number(n.to_string()),
        serde_json::Value::String(x) => Value::String(x.clone()),
        serde_json::Value::Array(a) => Value::Array(a.iter().map(from_json).collect()),
        serde_json::Value::Object(o) => {
            Value::Object(o.iter().map(|(k, v)| (k.clone(), from_json(v))).collect())
        }
    }
}

#[test]
fn benchmark_deserialization() {
    let start = Instant::now();
    let input = r#"{"name": "shovel", "ingredientPattern": "m", "width": 1, "height": 1,
        "ingredients": {"m": {"type": "item", "code": "game:%m%", "name": null}},
        "output": {"type": "item", "code": "game:shovel-%m%", "quantity": 1},
        "shapeless": true}"#;
    let parsed: serde_json::Value = serde_json::from_str(input).unwrap();
    let recipe = Recipe::from_value(&from_json(&parsed)).unwrap();
    assert_eq!(recipe.width, 1);
    assert_eq!(recipe.output.rest, vec![(s("quantity"), num("1"))]);
    let elapsed = start.elapsed();
    println!("Deserialization took: {elapsed:.2?}");
}

#[test]
fn tokenize_reads_properties_wildcards_and_indices() {
    let tokens = DotPath(s("a.*.3")).tokenize();
    assert_eq!(tokens, vec![DotToken::Property(s("a")), DotToken::Wildcard, DotToken::Index(3)]);
    assert_eq!(DotPath(s("")).tokenize(), vec![DotToken::Property(s(""))]);
    assert_eq!(
        DotPath(s("x..+7")).tokenize(),
        vec![DotToken::Property(s("x")), DotToken::Property(s("")), DotToken::Index(7)]
    );
}

#[test]
fn parse_index_follows_unsigned_parsing() {
    assert_eq!(parse_index("42"), Some(42));
    assert_eq!(parse_index("+0"), Some(0));
    assert_eq!(parse_index("+"), None);
    assert_eq!(parse_index("-1"), None);
    assert_eq!(parse_index("1a"), None);
    assert_eq!(parse_index("99999999999999999999999"), None);
}

#[test]
fn dot_path_iterator_walks_and_writes_back() {
    let path = DotPath(s("items.*.12"));
    let mut it = DotPathIterator::new(&path);
    assert_eq!(it.to_text(), s("items.*.12"));
    assert_eq!(it.next(), Some(DotToken::Property(s("items"))));
    assert_eq!(it.next(), Some(DotToken::Wildcard));
    assert_eq!(it.next(), Some(DotToken::Index(12)));
    assert_eq!(it.next(), None);
}

#[test]
fn modify_wildcard_sets_every_child_and_is_idempotent() {
    let mut v = obj(vec![(
        "items",
        Value::Array(vec![
            obj(vec![("qty", num("1"))]),
            obj(vec![("qty", num("2")), ("id", text("b"))]),
            obj(vec![]),
        ]),
    )]);
    let m = Modify { path: DotPath(s("items.*.qty")), value: num("5") };
    m.apply(&mut v).unwrap();
    match field(&v, "items") {
        Value::Array(a) => {
            assert_eq!(a.len(), 3);
            for item in a {
                assert_eq!(field(item, "qty"), &num("5"));
            }
        }
        _ => panic!("items is no array"),
    }
    let once = v.clone();
    m.apply(&mut v).unwrap();
    assert_eq!(v, once);
}

#[test]
fn remove_missing_key_is_noop() {
    let mut v = obj(vec![("a", obj(vec![("c", num("1"))]))]);
    let before = v.clone();
    Remove(DotPath(s("a.b"))).apply(&mut v).unwrap();
    assert_eq!(v, before);
}

#[test]
fn remove_index_out_of_bounds_reports_length() {
    let mut v = Value::Array(vec![num("1"), num("2"), num("3")]);
    let r = Remove(DotPath(s("5"))).apply(&mut v);
    assert!(matches!(r, Err(Error::IndexOutOfBounds { index: 5, len: 3, .. })));
    Remove(DotPath(s("1"))).apply(&mut v).unwrap();
    assert_eq!(v, Value::Array(vec![num("1"), num("3")]));
}

#[test]
fn edit_errors_name_the_failing_step() {
    let mut v = obj(vec![("a", num("1")), ("l", Value::Array(vec![]))]);
    let set = |p: &str| Modify { path: DotPath(s(p)), value: Value::Null };
    assert!(matches!(set("a.b").apply(&mut v), Err(Error::ExpectedObjectToSetProperty { .. })));
    assert!(matches!(set("zz.b").apply(&mut v), Err(Error::UnknownPropertyInObjectPath { .. })));
    assert!(matches!(set("a.0").apply(&mut v), Err(Error::ExpectedArrayToSetIndex { index: 0, .. })));
    assert!(matches!(set("a.*").apply(&mut v), Err(Error::ExpectedWildcardToSetProperty { .. })));
    let rm = |p: &str| Remove(DotPath(s(p)));
    assert!(matches!(rm("a.b").apply(&mut v), Err(Error::ExpectedObjectToRemoveProperty { .. })));
    assert!(matches!(rm("a.2").apply(&mut v), Err(Error::ExpectedArrayToRemoveIndex { index: 2, .. })));
    assert!(matches!(rm("a.*").apply(&mut v), Err(Error::ExpectedWildcardToRemoveProperty { .. })));
    set("new").apply(&mut v).unwrap();
    assert_eq!(field(&v, "new"), &Value::Null);
    rm("a").apply(&mut v).unwrap();
    assert_eq!(v, obj(vec![("l", Value::Array(vec![])), ("new", Value::Null)]));
}

#[test]
fn patches_enumerate_last_tag_fastest() {
    let tags = vec![
        (s("size"), vec![s("s"), s("m")]),
        (s("color"), vec![s("red"), s("blue"), s("green")]),
    ];
    let mut it = PatchIterator::new(tags);
    let mut seen = Vec::new();
    while let Some(p) = it.next() {
        assert_eq!(p.len(), 2);
        assert_eq!(p[0].target, s("size"));
        assert_eq!(p[1].target, s("color"));
        seen.push((p[0].value.clone(), p[1].value.clone()));
    }
    let want: Vec<(String, String)> = [
        ("s", "red"), ("s", "blue"), ("s", "green"), ("m", "red"), ("m", "blue"), ("m", "green"),
    ]
    .iter()
    .map(|(a, b)| (s(a), s(b)))
    .collect();
    assert_eq!(seen, want);
}

#[test]
fn patches_without_tags_and_with_empty_tag() {
    let mut it = PatchIterator::new(vec![]);
    assert_eq!(it.next(), Some(vec![]));
    assert_eq!(it.next(), None);
    let mut empty = PatchIterator::new(vec![(s("a"), vec![s("x")]), (s("b"), vec![])]);
    assert_eq!(empty.next(), None);
}

#[test]
fn static_property_expansion() {
    let statics = vec![
        (s("colors"), Value::Array(vec![text("red"), text("blue")])),
        (s("one"), text("oak")),
        (s("bad"), Value::Array(vec![text("x"), num("1")])),
        (s("nil"), Value::Null),
    ];
    assert_eq!(resolve_tag_value(&s("@colors"), &statics).unwrap(), vec![s("red"), s("blue")]);
    assert_eq!(resolve_tag_value(&s("@one"), &statics).unwrap(), vec![s("oak")]);
    assert_eq!(resolve_tag_value(&s("plain"), &statics).unwrap(), vec![s("plain")]);
    assert!(matches!(
        resolve_tag_value(&s("@missing"), &statics),
        Err(Error::UnknownStaticProperty(p)) if p == "missing"
    ));
    assert!(matches!(
        resolve_tag_value(&s("@"), &statics),
        Err(Error::InvalidStaticProperty { .. })
    ));
    assert!(matches!(
        resolve_tag_value(&s("@bad"), &statics),
        Err(Error::InvalidStaticProperty { value: Value::Number(_), .. })
    ));
    assert!(matches!(
        resolve_tag_value(&s("@nil"), &statics),
        Err(Error::InvalidStaticProperty { value: Value::Null, .. })
    ));
    let (name, values) = resolve_tag(&tag("c", &["@colors", "red", "@one"]), &statics).unwrap();
    assert_eq!(name, s("c"));
    assert_eq!(values, vec![s("red"), s("blue"), s("red"), s("oak")]);
}

#[test]
fn substitution_reaches_every_string() {
    let mut r = recipe("%color%");
    r.ingredients = vec![('I', Ingredient {
        item_type: s("item"),
        code: s("%color%_ingot"),
        name: Some(s("%color% ingot")),
        skip_variants: vec![s("%color%-x"), s("plain")],
        rest: vec![(s("attributes"), obj(vec![("tint", text("%color%%color%"))]))],
    })];
    r.rest = vec![(s("meta"), obj(vec![("list", Value::Array(vec![text("a %color%")]))]))];
    let sub = Substitution { target: s("color"), value: s("red") };
    sub.apply(&mut r).unwrap();
    let ing = &r.ingredients[0].1;
    assert_eq!(ing.code, s("red_ingot"));
    assert_eq!(ing.name, Some(s("red ingot")));
    assert_eq!(ing.skip_variants, vec![s("red-x"), s("plain")]);
    assert_eq!(field(&ing.rest[0].1, "tint"), &text("redred"));
    assert_eq!(r.pattern, s("red"));
    assert_eq!(r.output.code, s("game:%m%_shovel"));
    assert_eq!(
        r.rest,
        vec![(s("meta"), obj(vec![("list", Value::Array(vec![text("a red")]))]))]
    );
    let mut v = text("%x%%x%");
    v.replace_mut("%x%", "ab");
    assert_eq!(v, text("abab"));
}

#[test]
fn recipe_tree_round_trip() {
    let mut r = recipe("m");
    r.width = 213;
    r.rest = vec![(s("shapeless"), Value::Bool(true))];
    let v = r.to_value();
    assert_eq!(field(&v, "width"), &num("213"));
    assert_eq!(field(field(&v, "ingredients"), "m"), &ingredient("game:%m%").to_value());
    assert_eq!(field(&ingredient("c").to_value(), "name"), &Value::Null);
    assert_eq!(Recipe::from_value(&v).unwrap(), r);
    let bad = obj(vec![("ingredientPattern", num("1"))]);
    assert!(matches!(Recipe::from_value(&bad), Err(Error::InvalidRecipe { field }) if field == "ingredientPattern"));
    let mut wide = r.to_value();
    Modify { path: DotPath(s("width")), value: num("256") }.apply(&mut wide).unwrap();
    assert!(matches!(Recipe::from_value(&wide), Err(Error::InvalidRecipe { field }) if field == "width"));
}

#[test]
fn expand_end_to_end() {
    let m = manifest(
        vec![Template { name: s("t"), recipe: recipe("%m%") }],
        vec![grammar(None, vec![tag("m", &["wood", "stone"])])],
    );
    let gen = DataGen::new(&m).unwrap();
    let out = gen.generate().unwrap();
    assert_eq!(out.len(), 2);
    assert_eq!(out[0].pattern, s("wood"));
    assert_eq!(out[1].pattern, s("stone"));
    assert_eq!(out[1].output.code, s("game:stone_shovel"));
    assert_eq!(out[0].ingredients[0].1.code, s("game:wood"));
}

#[test]
fn expand_applies_removes_then_modifies() {
    let mut g = grammar(None, vec![tag("m", &["iron"])]);
    g.remove = vec![Remove(DotPath(s("output.name")))];
    g.modify = vec![Modify { path: DotPath(s("ingredients.*.code")), value: text("%m%_bar") }];
    let t = Template { name: s("t"), recipe: recipe("%m%") };
    let out = g.expand(&t, &vec![]).unwrap();
    assert_eq!(out.len(), 1);
    assert_eq!(out[0].ingredients[0].1.code, s("iron_bar"));
    let mut broken = grammar(None, vec![tag("m", &["iron"])]);
    broken.modify = vec![Modify { path: DotPath(s("width")), value: text("wide") }];
    assert!(matches!(broken.expand(&t, &vec![]), Err(Error::InvalidRecipe { .. })));
    let mut none = grammar(None, vec![tag("m", &["@empty"])]);
    none.modify = broken.modify.clone();
    let statics = vec![(s("empty"), Value::Array(vec![]))];
    assert_eq!(none.expand(&t, &statics).unwrap(), vec![]);
}

#[test]
fn default_template_fallback() {
    let m = manifest(
        vec![
            Template { name: s("a"), recipe: recipe("from-a") },
            Template { name: s("b"), recipe: recipe("from-b") },
        ],
        vec![grammar(None, vec![])],
    );
    let gen = DataGen::new(&m).unwrap();
    assert_eq!(gen.default_template.name, s("a"));
    let out = gen.generate().unwrap();
    assert_eq!(out.len(), 1);
    assert_eq!(out[0].pattern, s("from-a"));
}

#[test]
fn template_selection_by_name() {
    let m = manifest(
        vec![
            Template { name: s("a"), recipe: recipe("from-a") },
            Template { name: s("default"), recipe: recipe("from-default") },
        ],
        vec![
            grammar(Some(OneOrMany::Many(vec![s("default"), s("a")])), vec![]),
            grammar(None, vec![]),
        ],
    );
    let out = DataGen::new(&m).unwrap().generate().unwrap();
    let patterns: Vec<String> = out.iter().map(|r| r.pattern.clone()).collect();
    assert_eq!(patterns, vec![s("from-default"), s("from-a"), s("from-default")]);
    let only_a = manifest(vec![Template { name: s("a"), recipe: recipe("from-a") }], vec![]);
    assert_eq!(only_a.find_template("default").unwrap().name, s("a"));
    assert!(matches!(only_a.find_template("zzz"), Err(Error::UnknownTemplate(n)) if n == "zzz"));
    let unknown = manifest(
        vec![Template { name: s("a"), recipe: recipe("x") }],
        vec![grammar(Some(OneOrMany::One(s("nope"))), vec![])],
    );
    assert!(matches!(DataGen::new(&unknown).unwrap().generate(), Err(Error::UnknownTemplate(_))));
    let empty = manifest(vec![], vec![]);
    assert!(matches!(DataGen::new(&empty), Err(Error::MissingDefaultTemplate)));
}

#[test]
fn static_reference_drops_only_the_first_at() {
    let statics = vec![(s("x"), text("v")), (s("@"), text("at"))];
    assert!(matches!(
        resolve_tag_value(&s("@@x"), &statics),
        Err(Error::UnknownStaticProperty(p)) if p == "@x"
    ));
    assert_eq!(resolve_tag_value(&s("@@"), &statics).unwrap(), vec![s("at")]);
    let g = grammar(None, vec![tag("t", &["@@x"])]);
    let t = Template { name: s("t"), recipe: recipe("%t%") };
    assert!(matches!(
        g.expand(&t, &statics),
        Err(Error::UnknownStaticProperty(p)) if p == "@x"
    ));
}

#[test]
fn failed_edit_without_wildcard_leaves_tree() {
    let start = obj(vec![("list", Value::Array(vec![num("1"), num("2"), num("3")])), ("a", obj(vec![("0", num("5"))]))]);
    let mut v = start.clone();
    let r = Modify { path: DotPath(s("list.5")), value: num("0") }.apply(&mut v);
    assert!(matches!(r, Err(Error::IndexOutOfBounds { index: 5, len: 3, .. })));
    assert_eq!(v, start);
    let r = Modify { path: DotPath(s("a.0")), value: num("1") }.apply(&mut v);
    assert!(matches!(r, Err(Error::ExpectedArrayToSetIndex { index: 0, .. })));
    assert_eq!(v, start);
    let r = Modify { path: DotPath(s("zz.b")), value: num("1") }.apply(&mut v);
    assert!(matches!(r, Err(Error::UnknownPropertyInObjectPath { .. })));
    assert_eq!(v, start);
    let r = Remove(DotPath(s("list.5"))).apply(&mut v);
    assert!(matches!(r, Err(Error::IndexOutOfBounds { index: 5, len: 3, .. })));
    assert_eq!(v, start);
}

#[test]
fn failed_wildcard_keeps_earlier_children_edited() {
    let mut v = Value::Array(vec![obj(vec![]), num("7"), obj(vec![])]);
    let r = Modify { path: DotPath(s("*.q")), value: num("1") }.apply(&mut v);
    assert!(matches!(r, Err(Error::ExpectedObjectToSetProperty { .. })));
    assert_eq!(v, Value::Array(vec![obj(vec![("q", num("1"))]), num("7"), obj(vec![])]));
}

#[test]
fn increment_indices_counts_like_an_odometer() {
    let mut it = PatchIterator::new(vec![(s("a"), vec![s("x"), s("y")]), (s("b"), vec![s("1"), s("2")])]);
    assert!(it.increment_indices());
    assert_eq!(it.indices, vec![0, 1]);
    assert!(it.increment_indices());
    assert_eq!(it.indices, vec![1, 0]);
    assert!(it.increment_indices());
    assert!(!it.increment_indices());
    assert_eq!(it.indices, vec![0, 0]);
}
