//! The context composer and page planner: runs every data query of the
//! configuration into a named-bindings context, then turns every page
//! specification into the list of files to emit — one per record for a
//! collection page, exactly one otherwise. Rendering and writing the files
//! is the caller's part; the plan fixes paths, templates and bindings.

use crate::config::{Config, ConfigDataDSL, ConfigPagesDSL};
use crate::query::{evaluate_query, spec_eval_query, Binding, BindingView};
use crate::paths::{parse_page_path, spec_subst};
use crate::record::{Record, RecordView};
use crate::store::Store;
use crate::utils::{spec_before_last, str_before_char};
use crate::Error;
use vstd::prelude::*;

verus! {

/// The named bindings handed to the renderer for one render call. A later
/// entry with the same name shadows an earlier one.
pub struct RenderContext {
    pub entries: Vec<(String, Binding)>,
}

impl View for RenderContext {
    type V = Seq<(Seq<char>, BindingView)>;

    open spec fn view(&self) -> Seq<(Seq<char>, BindingView)> {
        self.entries@.map_values(|e: (String, Binding)| (e.0@, e.1@))
    }
}

impl Clone for RenderContext {
    fn clone(&self) -> (r: RenderContext)
        ensures
            r@ == self@,
    {
        let mut out: Vec<(String, Binding)> = Vec::new();
        let n = self.entries.len();
        let mut i: usize = 0;
        while i < n
            invariant
                i <= n,
                n == self.entries@.len(),
                out@.len() == i,
                forall|j: int|
                    0 <= j < i ==> (#[trigger] out@[j].0@, out@[j].1@) == (
                        self.entries@[j].0@,
                        self.entries@[j].1@,
                    ),
            decreases n - i,
        {
            let name = self.entries[i].0.clone();
            let binding = self.entries[i].1.clone();
            out.push((name, binding));
            i += 1;
        }
        let r = RenderContext { entries: out };
        proof {
            assert(r@ =~= self@);
        }
        r
    }
}

/// One file to emit: where it goes, the directory to create first, the
/// template to render, and the bindings to render it with.
pub struct Emission {
    pub path: String,
    pub dir: String,
    pub template: String,
    pub bindings: RenderContext,
}

/// The mathematical model of an `Emission`.
pub struct EmissionView {
    pub path: Seq<char>,
    pub dir: Seq<char>,
    pub template: Seq<char>,
    pub bindings: Seq<(Seq<char>, BindingView)>,
}

impl View for Emission {
    type V = EmissionView;

    open spec fn view(&self) -> EmissionView {
        EmissionView {
            path: self.path@,
            dir: self.dir@,
            template: self.template@,
            bindings: self.bindings@,
        }
    }
}

/// The models of a sequence of emissions.
pub open spec fn emissions_of(s: Seq<Emission>) -> Seq<EmissionView> {
    s.map_values(|e: Emission| e@)
}

/// The first query of `data` whose `when_matches` pattern does not compile,
/// if any: the query whose error aborts the composition.
pub open spec fn first_bad_query(data: Seq<ConfigDataDSL>) -> Option<ConfigDataDSL>
    decreases data.len(),
{
    if data.len() == 0 {
        None
    } else if !data[0].pattern_ok() {
        Some(data[0])
    } else {
        first_bad_query(data.drop_first())
    }
}

/// What composing the context binds: each query's name with its result, in
/// declaration order, so that a later duplicate name shadows an earlier one.
pub open spec fn spec_compose(st: Store, data: Seq<ConfigDataDSL>) -> Seq<
    (Seq<char>, BindingView),
> {
    Seq::new(
        data.len(),
        |i: int|
            (data[i].name@, spec_eval_query(st.spec_collection(data[i].collection@), data[i])),
    )
}

/// Runs every data query of the configuration and binds each result under
/// its query's name, in declaration order. The first query with an invalid
/// `when_matches` pattern aborts the whole composition with its error; a
/// configuration without a `data` list yields an empty context.
pub fn compose_context(store: &Store, config: &Config) -> (r: Result<RenderContext, Error>)
    ensures
        match config.data {
            Some(d) => {
                &&& r is Ok <==> first_bad_query(d@) is None
                &&& r matches Ok(ctx) ==> ctx@ == spec_compose(*store, d@)
                &&& r matches Err(e) ==> first_bad_query(d@) matches Some(q) && e matches Error
                    ::Pattern(p) && q.when_matches matches Some(w) && p@ == w.regex@
            },
            None => r matches Ok(ctx) && ctx@ == Seq::<(Seq<char>, BindingView)>::empty(),
        },
{
    let data = match &config.data {
        Some(d) => d,
        None => {
            let ctx = RenderContext { entries: Vec::new() };
            proof {
                assert(ctx@ =~= Seq::<(Seq<char>, BindingView)>::empty());
            }
            return Ok(ctx);
        },
    };
    let mut entries: Vec<(String, Binding)> = Vec::new();
    let n = data.len();
    let mut i: usize = 0;
    proof {
        assert(config.data->Some_0 == *data);
        assert(data@.skip(0) =~= data@);
    }
    while i < n
        invariant
            i <= n,
            n == data@.len(),
            entries@.len() == i,
            config.data == Some(*data),
            first_bad_query(data@) == first_bad_query(data@.skip(i as int)),
            forall|j: int|
                0 <= j < i ==> (#[trigger] entries@[j].0@, entries@[j].1@) == (
                    data@[j].name@,
                    spec_eval_query(store.spec_collection(data@[j].collection@), data@[j]),
                ),
        decreases n - i,
    {
        let records = store.collection(data[i].collection.as_str());
        match evaluate_query(records, &data[i]) {
            Ok(b) => {
                proof {
                    assert(data@.skip(i as int)[0] == data@[i as int]);
                    assert(data@.skip(i as int).drop_first() =~= data@.skip(i as int + 1));
                }
                entries.push((data[i].name.clone(), b));
                i += 1;
            },
            Err(e) => {
                proof {
                    assert(data@.skip(i as int)[0] == data@[i as int]);
                    assert(!data@[i as int].pattern_ok());
                    assert(first_bad_query(data@.skip(i as int)) == Some(data@[i as int]));
                    assert(first_bad_query(config.data->Some_0@) == Some(data@[i as int]));
                    assert(e matches Error::Pattern(p) && data@[i as int].when_matches matches Some(
                        w,
                    ) && p@ == w.regex@);
                }
                return Err(e);
            },
        }
    }
    let ctx = RenderContext { entries };
    proof {
        assert(data@.skip(n as int) =~= Seq::<ConfigDataDSL>::empty());
        assert(ctx@ =~= spec_compose(*store, data@));
    }
    Ok(ctx)
}

/// The one file a singleton page emits: the path is taken literally, no
/// placeholder is expanded, and the base context is rendered as it stands.
pub open spec fn singleton_emission(
    pg: ConfigPagesDSL,
    ctx: Seq<(Seq<char>, BindingView)>,
) -> EmissionView {
    EmissionView {
        path: pg.page.path@,
        dir: spec_before_last(pg.page.path@, "/"@),
        template: pg.template@,
        bindings: ctx,
    }
}

/// The file one record of a collection page emits: the path with the
/// record's fields substituted, and the base context with the record bound
/// under the reserved name `record`.
pub open spec fn record_emission(
    pg: ConfigPagesDSL,
    ctx: Seq<(Seq<char>, BindingView)>,
    r: RecordView,
) -> EmissionView {
    let path = spec_subst(pg.page.path@, r);
    EmissionView {
        path: path,
        dir: spec_before_last(path, "/"@),
        template: pg.template@,
        bindings: ctx.push(("record"@, BindingView::One(Some(r)))),
    }
}

/// The files one page specification emits: one per record of its collection,
/// in store order, or exactly one for a page without a collection.
pub open spec fn spec_plan_page(
    st: Store,
    pg: ConfigPagesDSL,
    ctx: Seq<(Seq<char>, BindingView)>,
) -> Seq<EmissionView> {
    if pg.collection is Some {
        let recs = st.spec_collection(pg.collection->Some_0@);
        Seq::new(recs.len(), |i: int| record_emission(pg, ctx, recs[i]))
    } else {
        seq![singleton_emission(pg, ctx)]
    }
}

/// The files the whole page list emits, page after page in configuration
/// order.
pub open spec fn spec_plan_pages(
    st: Store,
    pages: Seq<ConfigPagesDSL>,
    ctx: Seq<(Seq<char>, BindingView)>,
) -> Seq<EmissionView>
    decreases pages.len(),
{
    if pages.len() == 0 {
        Seq::empty()
    } else {
        spec_plan_page(st, pages[0], ctx) + spec_plan_pages(st, pages.drop_first(), ctx)
    }
}

/// Plans one page specification against the composed context.
fn plan_page(store: &Store, pg: &ConfigPagesDSL, ctx: &RenderContext) -> (r: Vec<Emission>)
    ensures
        emissions_of(r@) == spec_plan_page(*store, *pg, ctx@),
{
    let mut out: Vec<Emission> = Vec::new();
    match &pg.collection {
        Some(name) => {
            let records = store.collection(name.as_str());
            let n = records.len();
            let ghost recs = store.spec_collection(name@);
            proof {
                assert(recs.len() == n);
                assert(forall|j: int| 0 <= j < n ==> recs[j] == (#[trigger] records@[j])@);
            }
            let mut i: usize = 0;
            while i < n
                invariant
                    i <= n,
                    n == records@.len(),
                    pg.collection == Some(*name),
                    recs == store.spec_collection(name@),
                    recs.len() == n,
                    forall|j: int| 0 <= j < n ==> recs[j] == (#[trigger] records@[j])@,
                    out@.len() == i,
                    forall|j: int|
                        0 <= j < i ==> (#[trigger] out@[j])@ == record_emission(*pg, ctx@, recs[j]),
                decreases n - i,
            {
                let rec = records[i].clone();
                let path = parse_page_path(pg.page.path.as_str(), &rec);
                let dir = str_before_char(path.as_str(), "/");
                let mut bindings = ctx.clone();
                bindings.entries.push(("record".to_owned(), Binding::One(Some(rec))));
                proof {
                    assert(bindings@ =~= ctx@.push(("record"@, BindingView::One(Some(recs[i as int])))));
                }
                let emission = Emission { path, dir, template: pg.template.clone(), bindings };
                out.push(emission);
                i += 1;
            }
            proof {
                assert(emissions_of(out@) =~= spec_plan_page(*store, *pg, ctx@));
            }
        },
        None => {
            let path = pg.page.path.clone();
            let dir = str_before_char(path.as_str(), "/");
            let emission = Emission {
                path,
                dir,
                template: pg.template.clone(),
                bindings: ctx.clone(),
            };
            out.push(emission);
            proof {
                assert(emissions_of(out@) =~= spec_plan_page(*store, *pg, ctx@));
            }
        },
    }
    out
}

/// Plans every page of the configuration against the composed context: the
/// files to write, in emission order. A configuration without a `pages`
/// list emits nothing.
pub fn plan_pages(store: &Store, config: &Config, ctx: &RenderContext) -> (r: Vec<Emission>)
    ensures
        emissions_of(r@) == (match config.pages {
            Some(p) => spec_plan_pages(*store, p@, ctx@),
            None => Seq::<EmissionView>::empty(),
        }),
{
    let mut out: Vec<Emission> = Vec::new();
    let pages = match &config.pages {
        Some(p) => p,
        None => {
            proof {
                assert(emissions_of(out@) =~= Seq::<EmissionView>::empty());
            }
            return out;
        },
    };
    let n = pages.len();
    let mut i: usize = 0;
    proof {
        assert(pages@.skip(0) =~= pages@);
        assert(emissions_of(out@) =~= Seq::<EmissionView>::empty());
    }
    while i < n
        invariant
            i <= n,
            n == pages@.len(),
            config.pages == Some(*pages),
            spec_plan_pages(*store, pages@, ctx@) == emissions_of(out@) + spec_plan_pages(
                *store,
                pages@.skip(i as int),
                ctx@,
            ),
        decreases n - i,
    {
        proof {
            assert(pages@.skip(i as int)[0] == pages@[i as int]);
            assert(pages@.skip(i as int).drop_first() =~= pages@.skip(i as int + 1));
        }
        let ghost out0 = emissions_of(out@);
        let mut planned = plan_page(store, &pages[i], ctx);
        let ghost pl = emissions_of(planned@);
        out.append(&mut planned);
        proof {
            assert(emissions_of(out@) =~= out0 + pl);
            assert((out0 + pl) + spec_plan_pages(*store, pages@.skip(i as int + 1), ctx@) =~= out0
                + (pl + spec_plan_pages(*store, pages@.skip(i as int + 1), ctx@)));
        }
        i += 1;
    }
    proof {
        assert(pages@.skip(n as int) =~= Seq::<ConfigPagesDSL>::empty());
        assert(emissions_of(out@) + Seq::<EmissionView>::empty() =~= emissions_of(out@));
    }
    out
}

/// Plans one whole build pass: composes the context from every data query,
/// then plans every page against it. Fails exactly when some data query
/// holds an invalid `when_matches` pattern, with the first such query's
/// error; nothing is planned then.
pub fn plan_build(store: &Store, config: &Config) -> (r: Result<Vec<Emission>, Error>)
    ensures
        match config.data {
            Some(d) => {
                &&& r is Ok <==> first_bad_query(d@) is None
                &&& r matches Err(e) ==> first_bad_query(d@) matches Some(q) && e matches Error
                    ::Pattern(p) && q.when_matches matches Some(w) && p@ == w.regex@
                &&& r matches Ok(plan) ==> emissions_of(plan@) == (match config.pages {
                    Some(p) => spec_plan_pages(*store, p@, spec_compose(*store, d@)),
                    None => Seq::<EmissionView>::empty(),
                })
            },
            None => r matches Ok(plan) && emissions_of(plan@) == (match config.pages {
                Some(p) => spec_plan_pages(
                    *store,
                    p@,
                    Seq::<(Seq<char>, BindingView)>::empty(),
                ),
                None => Seq::<EmissionView>::empty(),
            }),
        },
{
    let ctx = match compose_context(store, config) {
        Ok(ctx) => ctx,
        Err(e) => {
            return Err(e);
        },
    };
    Ok(plan_pages(store, config, &ctx))
}

} // verus!

