//! End-to-end exercises of the query evaluator, the path templater, the
//! context composer and the page planner, over an in-memory store.

use vau::compiler::{compose_context, plan_build, plan_pages, RenderContext};
use vau::config::{
    Config, ConfigDataDSL, ConfigDataDSLSort, ConfigDataDSLWhenHas, ConfigDataDSLWhenHasNot,
    ConfigDataDSLWhenIs, ConfigDataDSLWhenIsNot, ConfigDataDSLWhenMatches, ConfigPagesDSL,
    ConfigPagesDSLPage,
};
use vau::paths::parse_page_path;
use vau::query::{evaluate_query, filter_records, Binding, Predicate};
use vau::record::{Record, Value};
use vau::store::Store;
use vau::Error;

fn rec(slug: &str, fields: Vec<(&str, Value)>) -> Record {
    let mut named: Vec<(String, Value)> = Vec::new();
    for (k, v) in fields {
        named.push((k.to_string(), v));
    }
    Record {
        id: slug.to_string(),
        collection: "posts".to_string(),
        file_name: format!("{}.yml", slug),
        fields: named,
    }
}

fn query(collection: &str) -> ConfigDataDSL {
    ConfigDataDSL {
        name: "posts".to_string(),
        collection: collection.to_string(),
        when_is: None,
        when_is_not: None,
        when_has: None,
        when_has_not: None,
        when_matches: None,
        sort: None,
        limit: None,
        first: None,
        last: None,
    }
}

fn posts() -> Vec<Record> {
    vec![
        rec("a", vec![("slug", Value::Str("a".to_string())), ("date", Value::Str("2024-01-01".to_string()))]),
        rec("b", vec![("slug", Value::Str("b".to_string())), ("date", Value::Str("2024-02-01".to_string()))]),
    ]
}

fn slug_of(r: &Record) -> String {
    match r.get("slug") {
        Some(Value::Str(s)) => s.clone(),
        _ => panic!("record without a slug"),
    }
}

fn slugs(b: &Binding) -> Vec<String> {
    match b {
        Binding::Many(v) => {
            let mut out = Vec::new();
            for r in v {
                out.push(slug_of(r));
            }
            out
        }
        Binding::One(_) => panic!("expected a list binding"),
    }
}

#[test]
fn sort_desc_round_trip() {
    let mut q = query("posts");
    q.sort = Some(ConfigDataDSLSort { key: "date".to_string(), order: "desc".to_string() });
    let b = evaluate_query(posts(), &q).unwrap();
    assert_eq!(slugs(&b), vec!["b".to_string(), "a".to_string()]);
}

#[test]
fn sort_asc_and_unknown_order_defaults_to_asc() {
    let mut q = query("posts");
    q.sort = Some(ConfigDataDSLSort { key: "date".to_string(), order: "asc".to_string() });
    let asc = slugs(&evaluate_query(posts(), &q).unwrap());
    q.sort = Some(ConfigDataDSLSort { key: "date".to_string(), order: "sideways".to_string() });
    let dflt = slugs(&evaluate_query(posts(), &q).unwrap());
    assert_eq!(asc, vec!["a".to_string(), "b".to_string()]);
    assert_eq!(dflt, asc);
}

#[test]
fn sort_is_stable_for_equal_keys() {
    let records = vec![
        rec("one", vec![("rank", Value::Num(2)), ("tag", Value::Str("x".to_string()))]),
        rec("two", vec![("rank", Value::Num(1)), ("tag", Value::Str("x".to_string()))]),
        rec("three", vec![("rank", Value::Num(1)), ("tag", Value::Str("x".to_string()))]),
    ];
    let mut q = query("posts");
    q.sort = Some(ConfigDataDSLSort { key: "rank".to_string(), order: "asc".to_string() });
    match evaluate_query(records.clone(), &q).unwrap() {
        Binding::Many(v) => {
            assert_eq!(v[0].id, "two");
            assert_eq!(v[1].id, "three");
            assert_eq!(v[2].id, "one");
        }
        _ => panic!("expected a list"),
    }
    q.sort = Some(ConfigDataDSLSort { key: "rank".to_string(), order: "desc".to_string() });
    match evaluate_query(records, &q).unwrap() {
        Binding::Many(v) => {
            assert_eq!(v[0].id, "one");
            assert_eq!(v[1].id, "two");
            assert_eq!(v[2].id, "three");
        }
        _ => panic!("expected a list"),
    }
}

#[test]
fn sort_pushes_missing_keys_to_the_end() {
    let records = vec![
        rec("late", vec![]),
        rec("early", vec![("rank", Value::Num(1))]),
    ];
    let mut q = query("posts");
    q.sort = Some(ConfigDataDSLSort { key: "rank".to_string(), order: "asc".to_string() });
    match evaluate_query(records, &q).unwrap() {
        Binding::Many(v) => {
            assert_eq!(v[0].id, "early");
            assert_eq!(v[1].id, "late");
        }
        _ => panic!("expected a list"),
    }
}

#[test]
fn limit_keeps_a_prefix() {
    let mut q = query("posts");
    q.limit = Some(1);
    assert_eq!(slugs(&evaluate_query(posts(), &q).unwrap()), vec!["a".to_string()]);
    q.limit = Some(0);
    assert_eq!(slugs(&evaluate_query(posts(), &q).unwrap()), Vec::<String>::new());
    q.limit = Some(10);
    assert_eq!(slugs(&evaluate_query(posts(), &q).unwrap()), vec!["a".to_string(), "b".to_string()]);
}

#[test]
fn first_and_last_reduce() {
    let mut q = query("posts");
    q.first = Some(true);
    match evaluate_query(posts(), &q).unwrap() {
        Binding::One(Some(r)) => assert_eq!(slug_of(&r), "a"),
        _ => panic!("expected the head record"),
    }
    q.first = None;
    q.last = Some(true);
    match evaluate_query(posts(), &q).unwrap() {
        Binding::One(Some(r)) => assert_eq!(slug_of(&r), "b"),
        _ => panic!("expected the tail record"),
    }
}

#[test]
fn first_and_last_on_empty_result_yield_no_record() {
    let mut q = query("posts");
    q.when_is = Some(ConfigDataDSLWhenIs {
        key: "slug".to_string(),
        equals: "nope".to_string(),
    });
    q.first = Some(true);
    assert!(matches!(evaluate_query(posts(), &q).unwrap(), Binding::One(None)));
    q.first = None;
    q.last = Some(true);
    assert!(matches!(evaluate_query(posts(), &q).unwrap(), Binding::One(None)));
}

#[test]
fn predicates_filter_conjunctively() {
    let records = vec![
        rec("a", vec![("kind", Value::Str("post".to_string())), ("draft", Value::Bool(true))]),
        rec("b", vec![("kind", Value::Str("post".to_string()))]),
        rec("c", vec![("kind", Value::Str("page".to_string()))]),
    ];
    let mut q = query("posts");
    q.when_is = Some(ConfigDataDSLWhenIs { key: "kind".to_string(), equals: "post".to_string() });
    q.when_has_not = Some(ConfigDataDSLWhenHasNot { key: "draft".to_string() });
    match evaluate_query(records, &q).unwrap() {
        Binding::Many(v) => {
            assert_eq!(v.len(), 1);
            assert_eq!(v[0].id, "b");
        }
        _ => panic!("expected a list"),
    }
}

#[test]
fn filters_commute() {
    let records = vec![
        rec("a", vec![("kind", Value::Str("post".to_string())), ("lang", Value::Str("en".to_string()))]),
        rec("b", vec![("kind", Value::Str("post".to_string()))]),
        rec("c", vec![("lang", Value::Str("en".to_string()))]),
    ];
    let p = Predicate::Is { key: "kind".to_string(), equals: "post".to_string() };
    let q = Predicate::Has { key: "lang".to_string() };
    let pq = filter_records(filter_records(records.clone(), &p), &q);
    let qp = filter_records(filter_records(records, &q), &p);
    assert_eq!(pq, qp);
    assert_eq!(pq.len(), 1);
    assert_eq!(pq[0].id, "a");
}

#[test]
fn when_is_not_and_when_has() {
    let records = vec![
        rec("a", vec![("status", Value::Str("done".to_string()))]),
        rec("b", vec![("status", Value::Str("open".to_string()))]),
        rec("c", vec![]),
    ];
    let mut q = query("posts");
    q.when_is_not = Some(ConfigDataDSLWhenIsNot {
        key: "status".to_string(),
        equals: "done".to_string(),
    });
    match evaluate_query(records.clone(), &q).unwrap() {
        Binding::Many(v) => {
            assert_eq!(v.len(), 1);
            assert_eq!(v[0].id, "b");
        }
        _ => panic!("expected a list"),
    }
    let mut q = query("posts");
    q.when_has = Some(ConfigDataDSLWhenHas { key: "status".to_string() });
    match evaluate_query(records, &q).unwrap() {
        Binding::Many(v) => assert_eq!(v.len(), 2),
        _ => panic!("expected a list"),
    }
}

#[test]
fn when_matches_filters_by_regex() {
    let records = vec![
        rec("a", vec![("status", Value::Str("published".to_string()))]),
        rec("b", vec![("status", Value::Str("draft".to_string()))]),
        rec("c", vec![("status", Value::Str("pub-review".to_string()))]),
    ];
    let mut q = query("posts");
    q.when_matches = Some(ConfigDataDSLWhenMatches {
        key: "status".to_string(),
        regex: "^pub".to_string(),
    });
    match evaluate_query(records, &q).unwrap() {
        Binding::Many(v) => {
            assert_eq!(v.len(), 2);
            assert_eq!(v[0].id, "a");
            assert_eq!(v[1].id, "c");
        }
        _ => panic!("expected a list"),
    }
}

#[test]
fn invalid_regex_pattern_is_an_error() {
    let mut q = query("posts");
    q.when_matches = Some(ConfigDataDSLWhenMatches {
        key: "status".to_string(),
        regex: "[".to_string(),
    });
    match evaluate_query(posts(), &q) {
        Err(Error::Pattern(p)) => assert_eq!(p, "["),
        _ => panic!("expected a pattern error"),
    }
}

#[test]
fn compose_binds_each_query_under_its_name() {
    let store = Store { collections: vec![("posts".to_string(), posts())] };
    let mut first = query("posts");
    first.name = "all".to_string();
    let mut second = query("posts");
    second.name = "latest".to_string();
    second.first = Some(true);
    let config = Config { data: Some(vec![first, second]), pages: None };
    let ctx = compose_context(&store, &config).unwrap();
    assert_eq!(ctx.entries.len(), 2);
    assert_eq!(ctx.entries[0].0, "all");
    assert_eq!(ctx.entries[1].0, "latest");
    assert!(matches!(&ctx.entries[1].1, Binding::One(Some(_))));
}

#[test]
fn compose_aborts_on_the_first_bad_pattern() {
    let store = Store { collections: vec![("posts".to_string(), posts())] };
    let mut bad = query("posts");
    bad.when_matches = Some(ConfigDataDSLWhenMatches {
        key: "slug".to_string(),
        regex: "(".to_string(),
    });
    let good = query("posts");
    let config = Config { data: Some(vec![bad, good]), pages: None };
    match compose_context(&store, &config) {
        Err(Error::Pattern(p)) => assert_eq!(p, "("),
        _ => panic!("expected a pattern error"),
    }
}

#[test]
fn unknown_collection_is_empty_not_an_error() {
    let store = Store { collections: vec![("posts".to_string(), posts())] };
    assert_eq!(store.collection("nothing"), Vec::<Record>::new());
    let q = query("nothing");
    let records = store.collection("nothing");
    assert_eq!(slugs(&evaluate_query(records, &q).unwrap()), Vec::<String>::new());
}

#[test]
fn collection_page_emits_one_file_per_record() {
    let store = Store { collections: vec![("posts".to_string(), posts())] };
    let config = Config {
        data: None,
        pages: Some(vec![ConfigPagesDSL {
            collection: Some("posts".to_string()),
            page: ConfigPagesDSLPage { path: "blog/{slug}/index.html".to_string() },
            template: "post".to_string(),
        }]),
    };
    let plan = plan_build(&store, &config).unwrap();
    assert_eq!(plan.len(), 2);
    assert_eq!(plan[0].path, "blog/a/index.html");
    assert_eq!(plan[1].path, "blog/b/index.html");
    assert_eq!(plan[0].dir, "blog/a");
    assert_eq!(plan[0].template, "post");
    let last = plan[0].bindings.entries.last().unwrap();
    assert_eq!(last.0, "record");
    match &last.1 {
        Binding::One(Some(r)) => assert_eq!(slug_of(r), "a"),
        _ => panic!("expected the record binding"),
    }
    match &plan[1].bindings.entries.last().unwrap().1 {
        Binding::One(Some(r)) => assert_eq!(slug_of(r), "b"),
        _ => panic!("expected the record binding"),
    }
}

#[test]
fn singleton_page_takes_its_path_literally() {
    let store = Store { collections: vec![] };
    let ctx = RenderContext { entries: vec![] };
    let config = Config {
        data: None,
        pages: Some(vec![ConfigPagesDSL {
            collection: None,
            page: ConfigPagesDSLPage { path: "about/{x}.html".to_string() },
            template: "about".to_string(),
        }]),
    };
    let plan = plan_pages(&store, &config, &ctx);
    assert_eq!(plan.len(), 1);
    assert_eq!(plan[0].path, "about/{x}.html");
    assert_eq!(plan[0].dir, "about");
    assert_eq!(plan[0].bindings.entries.len(), 0);
}

#[test]
fn path_placeholders_substitute_from_the_record() {
    let r = rec(
        "a",
        vec![
            ("slug", Value::Str("hello".to_string())),
            ("year", Value::Num(2024)),
            ("draft", Value::Bool(true)),
            ("gap", Value::Null),
        ],
    );
    assert_eq!(parse_page_path("blog/{slug}/index.html", &r), "blog/hello/index.html");
    assert_eq!(parse_page_path("{year}/{slug}.html", &r), "2024/hello.html");
    let zero = rec("z", vec![("n", Value::Num(0))]);
    assert_eq!(parse_page_path("{n}.html", &zero), "0.html");
    assert_eq!(parse_page_path("{slug}-{slug}.html", &r), "hello-hello.html");
    assert_eq!(parse_page_path("x/{missing}.html", &r), "x/{missing}.html");
    assert_eq!(parse_page_path("x/{draft}.html", &r), "x/{draft}.html");
    assert_eq!(parse_page_path("x/{gap}.html", &r), "x/{gap}.html");
    assert_eq!(parse_page_path("plain/index.html", &r), "plain/index.html");
    assert_eq!(parse_page_path("", &r), "");
    assert_eq!(parse_page_path("odd{brace", &r), "odd{brace");
    assert_eq!(parse_page_path("{}/x", &r), "{}/x");
}

#[test]
fn record_get_returns_the_first_match() {
    let r = rec(
        "a",
        vec![
            ("k", Value::Str("one".to_string())),
            ("k", Value::Str("two".to_string())),
        ],
    );
    match r.get("k") {
        Some(Value::Str(s)) => assert_eq!(s, "one"),
        _ => panic!("expected the first entry"),
    }
    assert!(r.get("absent").is_none());
}
