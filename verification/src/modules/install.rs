use vstd::prelude::*;

use crate::models::{
    clone_file_pairs, entry_pairs_view, lemma_entry_pairs_view_len, EntryType, EntryV, PluginInfo,
    PluginType, PluginTypeV,
};
use crate::prompts::{
    arrays_nonempty, ctx_after_items, ctx_after_read, ctx_insert, expanded_from, read, spec_read,
    spec_read_fields, AnswerFeed, CollectError, Context, CtxValue, CtxValueV,
};
use crate::template::{add_files_as_vars, file_actions, file_vars, path_join, FileAction};

verus! {

// ---------------------------------------------------------------------------
// Installation.
//
// Installing a module resolves every placeholder prototype in descriptor
// order through the collector, accumulates the resolved values both in the
// data record and in the rendering context, plans the supporting-file copies,
// and decides how an externally-built package is produced.  All filesystem
// work, prompting and rendering is driven from outside against the outcome.
// ---------------------------------------------------------------------------

pub enum BuildCommand {
    FromGit { git: String, tag: Option<String> },
    FromPath { path: String },
}

#[verifier::ext_equal]
pub enum BuildCommandV {
    FromGit { git: Seq<char>, tag: Option<Seq<char>> },
    FromPath { path: Seq<char> },
}

impl View for BuildCommand {
    type V = BuildCommandV;

    open spec fn view(&self) -> BuildCommandV {
        match self {
            BuildCommand::FromGit { git, tag } => BuildCommandV::FromGit {
                git: git@,
                tag: tag.deep_view(),
            },
            BuildCommand::FromPath { path } => BuildCommandV::FromPath { path: path@ },
        }
    }
}

#[derive(PartialEq, Eq, Structural, Clone, Copy, Debug)]
pub enum InstallError {
    /// An externally-built package names neither a source repository nor a
    /// local path.
    BadPackage,
    /// A prompt went unanswered.
    Prompt(CollectError),
}

/// How an externally-built package is produced: from its source repository
/// where one is named, else from its path relative to the module directory;
/// plain scripts need no build.
pub open spec fn build_command_spec(p: PluginTypeV, module_dir: Seq<char>) -> Result<
    Option<BuildCommandV>,
    InstallError,
> {
    match p {
        PluginTypeV::RustPackage { path, git, tag } => {
            match git {
                Some(g) => Ok(Some(BuildCommandV::FromGit { git: g, tag })),
                None => match path {
                    Some(pp) => Ok(
                        Some(BuildCommandV::FromPath { path: path_join(module_dir, pp) }),
                    ),
                    None => Err(InstallError::BadPackage),
                },
            }
        },
        _ => Ok(None),
    }
}

pub fn build_command(p: &PluginType, path_to_module: &str) -> (r: Result<
    Option<BuildCommand>,
    InstallError,
>)
    ensures
        match (r, build_command_spec(p@, path_to_module@)) {
            (Ok(Some(b)), Ok(Some(bv))) => b@ == bv,
            (Ok(None), Ok(None)) => true,
            (Err(e1), Err(e2)) => e1 == e2,
            _ => false,
        },
{
    match p {
        PluginType::RustPackage { path, git, tag } => {
            match git {
                Some(g) => Ok(
                    Some(
                        BuildCommand::FromGit {
                            git: g.clone(),
                            tag: crate::models::clone_opt_string(tag),
                        },
                    ),
                ),
                None => match path {
                    Some(pp) => Ok(
                        Some(
                            BuildCommand::FromPath {
                                path: crate::template::join_path(path_to_module, pp.as_str()),
                            },
                        ),
                    ),
                    None => Err(InstallError::BadPackage),
                },
            }
        },
        _ => Ok(None),
    }
}

// ---------------------------------------------------------------------------
// The context an installation builds: each placeholder's resolution effects,
// then the whole resolved tree under the placeholder's key.
// ---------------------------------------------------------------------------

pub open spec fn install_fields_ctx(
    fields: Seq<(Seq<char>, EntryV)>,
    ctx: Seq<(Seq<char>, CtxValueV)>,
) -> Seq<(Seq<char>, CtxValueV)>
    decreases fields.len(),
{
    if fields.len() == 0 {
        ctx
    } else {
        install_fields_ctx(
            fields.drop_first(),
            ctx_insert(
                ctx_after_read(fields[0].0, fields[0].1, ctx),
                fields[0].0,
                CtxValueV::Tree(fields[0].1),
            ),
        )
    }
}

proof fn lemma_install_fields_ctx_snoc(
    a: Seq<(Seq<char>, EntryV)>,
    x: (Seq<char>, EntryV),
    ctx: Seq<(Seq<char>, CtxValueV)>,
)
    ensures
        install_fields_ctx(a + seq![x], ctx) == ctx_insert(
            ctx_after_read(x.0, x.1, install_fields_ctx(a, ctx)),
            x.0,
            CtxValueV::Tree(x.1),
        ),
    decreases a.len(),
{
    if a.len() == 0 {
        assert(a + seq![x] =~= seq![x]);
        assert(seq![x][0] == x);
        assert(install_fields_ctx(seq![x], ctx) == install_fields_ctx(
            seq![x].drop_first(),
            ctx_insert(ctx_after_read(x.0, x.1, ctx), x.0, CtxValueV::Tree(x.1)),
        ));
        assert(seq![x].drop_first() =~= Seq::<(Seq<char>, EntryV)>::empty());
        assert(install_fields_ctx(
            seq![x].drop_first(),
            ctx_insert(ctx_after_read(x.0, x.1, ctx), x.0, CtxValueV::Tree(x.1)),
        ) == ctx_insert(ctx_after_read(x.0, x.1, ctx), x.0, CtxValueV::Tree(x.1)));
    } else {
        assert((a + seq![x]).drop_first() =~= a.drop_first() + seq![x]);
        assert((a + seq![x])[0] == a[0]);
        assert(install_fields_ctx(a + seq![x], ctx) == install_fields_ctx(
            (a + seq![x]).drop_first(),
            ctx_insert(ctx_after_read(a[0].0, a[0].1, ctx), a[0].0, CtxValueV::Tree(a[0].1)),
        ));
        lemma_install_fields_ctx_snoc(
            a.drop_first(),
            x,
            ctx_insert(
                ctx_after_read(a[0].0, a[0].1, ctx),
                a[0].0,
                CtxValueV::Tree(a[0].1),
            ),
        );
    }
}

proof fn lemma_install_fields_ctx_preserves(
    fields: Seq<(Seq<char>, EntryV)>,
    ctx: Seq<(Seq<char>, CtxValueV)>,
    q: Seq<char>,
)
    requires
        crate::models::assoc_get(ctx, q) is Some,
    ensures
        crate::models::assoc_get(install_fields_ctx(fields, ctx), q) is Some,
    decreases fields.len(),
{
    if fields.len() > 0 {
        crate::prompts::lemma_ctx_after_read_preserves(fields[0].0, fields[0].1, ctx, q);
        crate::prompts::lemma_ctx_insert_preserves(
            ctx_after_read(fields[0].0, fields[0].1, ctx),
            fields[0].0,
            CtxValueV::Tree(fields[0].1),
            q,
        );
        lemma_install_fields_ctx_preserves(
            fields.drop_first(),
            ctx_insert(
                ctx_after_read(fields[0].0, fields[0].1, ctx),
                fields[0].0,
                CtxValueV::Tree(fields[0].1),
            ),
            q,
        );
    }
}

/// The context an installation builds is complete: every placeholder key is
/// present under its name, and every list placeholder additionally has its
/// derived short-name key, so a template can reference each of them.
pub proof fn lemma_install_context_complete(
    fields: Seq<(Seq<char>, EntryV)>,
    ctx: Seq<(Seq<char>, CtxValueV)>,
)
    ensures
        forall|idx: int|
            0 <= idx < fields.len() ==> crate::models::assoc_get(
                install_fields_ctx(fields, ctx),
                (#[trigger] fields[idx]).0,
            ) is Some,
        forall|idx: int|
            0 <= idx < fields.len() && (#[trigger] fields[idx]).1 is Array
                ==> crate::models::assoc_get(
                install_fields_ctx(fields, ctx),
                fields[idx].0 + "_shortNames"@,
            ) is Some,
    decreases fields.len(),
{
    if fields.len() > 0 {
        let k0 = fields[0].0;
        let v0 = fields[0].1;
        let after_read = ctx_after_read(k0, v0, ctx);
        let after_tree = ctx_insert(after_read, k0, CtxValueV::Tree(v0));
        crate::prompts::lemma_ctx_insert_get(after_read, k0, CtxValueV::Tree(v0), k0);
        lemma_install_fields_ctx_preserves(fields.drop_first(), after_tree, k0);
        if v0 is Array {
            let items = v0->Array_0;
            let snk = k0 + "_shortNames"@;
            crate::prompts::lemma_ctx_insert_get(
                ctx_after_items(k0, items, ctx),
                snk,
                CtxValueV::Str(crate::prompts::short_names_of(items)),
                snk,
            );
            crate::prompts::lemma_ctx_insert_preserves(
                after_read,
                k0,
                CtxValueV::Tree(v0),
                snk,
            );
            lemma_install_fields_ctx_preserves(fields.drop_first(), after_tree, snk);
        }
        lemma_install_context_complete(fields.drop_first(), after_tree);
        assert forall|idx: int| 0 <= idx < fields.len() implies crate::models::assoc_get(
            install_fields_ctx(fields, ctx),
            (#[trigger] fields[idx]).0,
        ) is Some by {
            if idx > 0 {
                assert(fields.drop_first()[idx - 1] == fields[idx]);
            }
        }
        assert forall|idx: int|
            0 <= idx < fields.len() && (#[trigger] fields[idx]).1 is Array
            implies crate::models::assoc_get(
            install_fields_ctx(fields, ctx),
            fields[idx].0 + "_shortNames"@,
        ) is Some by {
            if idx > 0 {
                assert(fields.drop_first()[idx - 1] == fields[idx]);
            }
        }
    }
}

pub struct InstallOutcome {
    /// The data record to persist: the descriptor with resolved placeholders.
    pub data: PluginInfo,
    /// The rendering context for the template.
    pub context: Context,
    /// The supporting-file copy plan.
    pub file_actions: Vec<FileAction>,
    /// The build step for an externally-built package, where one is needed.
    pub build: Option<BuildCommand>,
}

/// Resolve every placeholder prototype of a descriptor in order, building the
/// data record and the rendering context.
#[verifier::loop_isolation(false)]
pub fn resolve_placeholders(
    placeholders: &Vec<(String, EntryType)>,
    map_builder: Context,
    feed: &mut AnswerFeed,
) -> (r: Result<(Context, Vec<(String, EntryType)>), CollectError>)
    requires
        old(feed).pos <= old(feed).answers@.len(),
        forall|k: int|
            0 <= k < entry_pairs_view(placeholders@).len() ==> arrays_nonempty(
                (#[trigger] entry_pairs_view(placeholders@)[k]).1,
            ),
    ensures
        final(feed).answers.deep_view() == old(feed).answers.deep_view(),
        old(feed).pos <= final(feed).pos <= final(feed).answers@.len(),
        match r {
            Ok(p) => ({
                let m = spec_read_fields(
                    entry_pairs_view(placeholders@),
                    old(feed).answers.deep_view(),
                    old(feed).pos as int,
                );
                &&& m is Some
                &&& final(feed).pos as int == m->Some_0.1
                &&& expanded_from(
                    EntryV::Object(m->Some_0.0),
                    EntryV::Object(entry_pairs_view(p.1@)),
                )
                &&& p.0@ == install_fields_ctx(entry_pairs_view(p.1@), map_builder@)
            }),
            Err(_) => spec_read_fields(
                entry_pairs_view(placeholders@),
                old(feed).answers.deep_view(),
                old(feed).pos as int,
            ) is None,
        },
{
    let ghost ov = entry_pairs_view(placeholders@);
    let ghost answers = old(feed).answers.deep_view();
    proof {
        lemma_entry_pairs_view_len(placeholders@);
    }
    let mut ctx = map_builder;
    let mut out: Vec<(String, EntryType)> = Vec::new();
    let mut i: usize = 0;
    proof {
        assert(entry_pairs_view(out@) =~= Seq::<(Seq<char>, EntryV)>::empty());
        lemma_entry_pairs_view_len(out@);
        assert(ov.skip(0) =~= ov);
        if spec_read_fields(ov, answers, old(feed).pos as int) is Some {
            let whole = spec_read_fields(ov, answers, old(feed).pos as int)->Some_0.0;
            assert(whole.skip(0) =~= whole);
        }
    }
    loop
        invariant
            i <= placeholders@.len(),
            feed.answers.deep_view() == answers,
            old(feed).pos <= feed.pos <= feed.answers@.len(),
            out@.len() == i,
            forall|k: int| 0 <= k < i ==> (#[trigger] entry_pairs_view(out@)[k]).0 == ov[k].0,
            ctx@ == install_fields_ctx(entry_pairs_view(out@), map_builder@),
            match spec_read_fields(ov.skip(i as int), answers, feed.pos as int) {
                None => spec_read_fields(ov, answers, old(feed).pos as int) is None,
                Some((rest, jj)) => ({
                    &&& spec_read_fields(ov, answers, old(feed).pos as int) is Some
                    &&& spec_read_fields(ov, answers, old(feed).pos as int)->Some_0.1 == jj
                    &&& {
                        let whole = spec_read_fields(ov, answers, old(feed).pos as int)->Some_0.0;
                        &&& whole.len() == i + rest.len()
                        &&& whole.skip(i as int) == rest
                        &&& forall|k: int|
                            0 <= k < i ==> (#[trigger] whole[k]).0 == ov[k].0 && expanded_from(
                                whole[k].1,
                                entry_pairs_view(out@)[k].1,
                            )
                    }
                }),
            },
        decreases placeholders@.len() - i,
    {
        if i >= placeholders.len() {
            break ;
        }
        proof {
            assert(ov.skip(i as int)[0] == ov[i as int]);
            assert(ov.skip(i as int).len() == ov.len() - i);
        }
        let ghost pos_before = feed.pos;
        let r = read(placeholders[i].0.as_str(), &placeholders[i].1, ctx, feed);
        match r {
            Err(e) => {
                return Err(e);
            },
            Ok((ctx2, resolved)) => {
                let mut ctx3 = ctx2;
                let tree_copy = resolved.clone();
                ctx3.insert(placeholders[i].0.clone(), CtxValue::Tree(tree_copy));
                ctx = ctx3;
                let ghost old_out = out@;
                out.push((placeholders[i].0.clone(), resolved));
                proof {
                    lemma_entry_pairs_view_len(old_out);
                    lemma_entry_pairs_view_len(out@);
                    assert(entry_pairs_view(out@) =~= entry_pairs_view(old_out) + seq![
                        (placeholders@[i as int].0@, resolved@),
                    ]);
                    lemma_install_fields_ctx_snoc(
                        entry_pairs_view(old_out),
                        (placeholders@[i as int].0@, resolved@),
                        map_builder@,
                    );
                    let m = spec_read(ov[i as int].1, answers, pos_before as int);
                    assert(ov.skip(i as int).drop_first() =~= ov.skip(i + 1));
                    let step = spec_read_fields(ov.skip(i as int), answers, pos_before as int);
                    let next = spec_read_fields(ov.skip(i + 1), answers, feed.pos as int);
                    assert(step == (match next {
                        None => None::<(Seq<(Seq<char>, EntryV)>, int)>,
                        Some((rest, j2)) => Some((seq![(ov[i as int].0, m->Some_0.0)] + rest, j2)),
                    }));
                    if next is Some {
                        let whole = spec_read_fields(ov, answers, old(feed).pos as int)->Some_0.0;
                        assert(whole.skip(i as int) == seq![(ov[i as int].0, m->Some_0.0)]
                            + next->Some_0.0);
                        assert(whole[i as int] == whole.skip(i as int)[0]);
                        assert(whole.skip(i as int).drop_first() =~= whole.skip(i + 1));
                        assert(whole.skip(i + 1) =~= next->Some_0.0);
                        assert(expanded_from(
                            whole[i as int].1,
                            entry_pairs_view(out@)[i as int].1,
                        ));
                    }
                }
                i += 1;
            },
        }
    }
    proof {
        assert(ov.skip(i as int) =~= Seq::<(Seq<char>, EntryV)>::empty());
        let whole = spec_read_fields(ov, answers, old(feed).pos as int)->Some_0.0;
        assert(whole.len() == i);
        lemma_entry_pairs_view_len(out@);
        assert forall|k: int| 0 <= k < i implies (#[trigger] whole[k]).0 == entry_pairs_view(
            out@,
        )[k].0 && expanded_from(whole[k].1, entry_pairs_view(out@)[k].1) by {
            assert(whole[k].0 == ov[k].0);
        }
        assert(expanded_from(EntryV::Object(whole), EntryV::Object(entry_pairs_view(out@))));
    }
    Ok((ctx, out))
}

/// Install one module from its descriptor: resolve the placeholders, build
/// the rendering context and data record, plan the supporting-file copies
/// (with overwriting), and decide the build step.
pub fn install(
    config: &PluginInfo,
    path_to_module: &str,
    home_path: &str,
    feed: &mut AnswerFeed,
) -> (r: Result<InstallOutcome, InstallError>)
    requires
        old(feed).pos <= old(feed).answers@.len(),
        match config.placeholders {
            Some(ps) => forall|k: int|
                0 <= k < entry_pairs_view(ps@).len() ==> arrays_nonempty(
                    (#[trigger] entry_pairs_view(ps@)[k]).1,
                ),
            None => true,
        },
    ensures
        final(feed).answers.deep_view() == old(feed).answers.deep_view(),
        old(feed).pos <= final(feed).pos <= final(feed).answers@.len(),
        match r {
            Ok(o) => ({
                &&& o.data.plugin_info@ == config@.plugin_info
                &&& o.data@.supporting_files == config@.supporting_files
                &&& (o.data.placeholders is Some <==> config.placeholders is Some)
                &&& match (config@.placeholders, o.data@.placeholders) {
                    (Some(protos), Some(resolved)) => ({
                        let m = spec_read_fields(
                            protos,
                            old(feed).answers.deep_view(),
                            old(feed).pos as int,
                        );
                        &&& m is Some
                        &&& final(feed).pos as int == m->Some_0.1
                        &&& expanded_from(EntryV::Object(m->Some_0.0), EntryV::Object(resolved))
                    }),
                    (None, None) => final(feed).pos == old(feed).pos,
                    _ => false,
                }
                &&& {
                    let base = install_fields_ctx(
                        match o.data@.placeholders {
                            Some(fs) => fs,
                            None => Seq::empty(),
                        },
                        Seq::empty(),
                    );
                    match config@.supporting_files {
                        Some(files) => o.context@ == file_vars(files, home_path@, base)
                            && o.file_actions.deep_view() == file_actions(
                            files,
                            path_to_module@,
                            home_path@,
                        ),
                        None => o.context@ == base && o.file_actions.deep_view() == Seq::<
                            crate::template::FileActionV,
                        >::empty(),
                    }
                }
                &&& build_command_spec(config@.plugin_info.plugin_type, path_to_module@)
                    == Ok::<Option<BuildCommandV>, InstallError>(
                    match o.build {
                        Some(b) => Some(b@),
                        None => None,
                    },
                )
            }),
            Err(InstallError::Prompt(_)) => config.placeholders is Some && spec_read_fields(
                match config@.placeholders {
                    Some(p) => p,
                    None => Seq::empty(),
                },
                old(feed).answers.deep_view(),
                old(feed).pos as int,
            ) is None,
            Err(InstallError::BadPackage) => build_command_spec(
                config@.plugin_info.plugin_type,
                path_to_module@,
            ) == Err::<Option<BuildCommandV>, InstallError>(InstallError::BadPackage),
        },
{
    let ctx0 = Context::new();
    let (ctx1, resolved): (Context, Option<Vec<(String, EntryType)>>) = match &config.placeholders {
        Some(ps) => {
            match resolve_placeholders(ps, ctx0, feed) {
                Err(e) => {
                    return Err(InstallError::Prompt(e));
                },
                Ok((c, v)) => (c, Some(v)),
            }
        },
        None => (ctx0, None),
    };
    let (ctx2, actions): (Context, Vec<FileAction>) = match &config.supporting_files {
        Some(files) => add_files_as_vars(files, ctx1, home_path, path_to_module, home_path, true),
        None => {
            let empty_actions: Vec<FileAction> = Vec::new();
            proof {
                assert(empty_actions.deep_view() =~= Seq::<crate::template::FileActionV>::empty());
            }
            (ctx1, empty_actions)
        },
    };
    let build = match build_command(&config.plugin_info.plugin_type, path_to_module) {
        Err(e) => {
            return Err(e);
        },
        Ok(b) => b,
    };
    let data = PluginInfo {
        plugin_info: config.plugin_info.clone(),
        placeholders: resolved,
        supporting_files: match &config.supporting_files {
            Some(fs) => Some(clone_file_pairs(fs)),
            None => None,
        },
    };
    Ok(InstallOutcome { data, context: ctx2, file_actions: actions, build })
}

// ---------------------------------------------------------------------------
// Dependency resolution.
//
// Internal dependencies are installed depth first, each module after its
// dependencies.  A name missing from the catalog, or a dependency chain that
// returns to a module already being resolved, stops the walk with an error
// naming the module.
// ---------------------------------------------------------------------------

pub enum OrderError {
    Missing(String),
    Cyclic(String),
}

#[verifier::ext_equal]
pub enum OrderOutcome {
    Done(Seq<Seq<char>>),
    Missing(Seq<char>),
    Cyclic(Seq<char>),
}

pub open spec fn catalog_pairs_view(s: Seq<(String, Vec<String>)>) -> Seq<
    (Seq<char>, Seq<Seq<char>>),
>
    decreases s,
{
    if s.len() == 0 {
        Seq::empty()
    } else {
        seq![(s[0].0@, s[0].1.deep_view())] + catalog_pairs_view(s.drop_first())
    }
}

pub broadcast proof fn lemma_catalog_pairs_view_len(s: Seq<(String, Vec<String>)>)
    ensures
        (#[trigger] catalog_pairs_view(s)).len() == s.len(),
        forall|i: int|
            0 <= i < s.len() ==> #[trigger] catalog_pairs_view(s)[i] == (
                s[i].0@,
                s[i].1.deep_view(),
            ),
    decreases s,
{
    if s.len() > 0 {
        lemma_catalog_pairs_view_len(s.drop_first());
        assert(catalog_pairs_view(s) == seq![(s[0].0@, s[0].1.deep_view())] + catalog_pairs_view(
            s.drop_first(),
        ));
        assert forall|i: int| 0 <= i < s.len() implies #[trigger] catalog_pairs_view(s)[i] == (
        s[i].0@,
        s[i].1.deep_view(),
        ) by {
            if i > 0 {
                assert(catalog_pairs_view(s)[i] == catalog_pairs_view(s.drop_first())[i - 1]);
                assert(s.drop_first()[i - 1] == s[i]);
            }
        }
    }
}

/// The order in which a module and its internal dependencies are installed:
/// dependencies first, depth first, with an explicit check against cyclic
/// chains instead of unbounded descent.
pub open spec fn spec_order(
    name: Seq<char>,
    catalog: Seq<(Seq<char>, Seq<Seq<char>>)>,
    visiting: Seq<Seq<char>>,
    fuel: nat,
) -> OrderOutcome
    decreases fuel, 0int,
{
    if fuel == 0 {
        OrderOutcome::Cyclic(name)
    } else if visiting.contains(name) {
        OrderOutcome::Cyclic(name)
    } else {
        match crate::models::assoc_get(catalog, name) {
            None => OrderOutcome::Missing(name),
            Some(deps) => match spec_order_list(
                deps,
                catalog,
                visiting.push(name),
                (fuel - 1) as nat,
            ) {
                OrderOutcome::Done(pre) => OrderOutcome::Done(pre + seq![name]),
                other => other,
            },
        }
    }
}

pub open spec fn spec_order_list(
    deps: Seq<Seq<char>>,
    catalog: Seq<(Seq<char>, Seq<Seq<char>>)>,
    visiting: Seq<Seq<char>>,
    fuel: nat,
) -> OrderOutcome
    decreases fuel, 1int, deps.len(),
{
    if deps.len() == 0 {
        OrderOutcome::Done(Seq::empty())
    } else {
        match spec_order(deps[0], catalog, visiting, fuel) {
            OrderOutcome::Done(first) => match spec_order_list(
                deps.drop_first(),
                catalog,
                visiting,
                fuel,
            ) {
                OrderOutcome::Done(rest) => OrderOutcome::Done(first + rest),
                other => other,
            },
            other => other,
        }
    }
}

/// The dependencies the catalog declares for a module.
pub open spec fn catalog_deps(
    catalog: Seq<(Seq<char>, Seq<Seq<char>>)>,
    name: Seq<char>,
) -> Seq<Seq<char>> {
    match crate::models::assoc_get(catalog, name) {
        Some(ds) => ds,
        None => Seq::empty(),
    }
}

pub open spec fn deps_before(order: Seq<Seq<char>>, p: int, ds: Seq<Seq<char>>) -> bool {
    forall|t: int| 0 <= t < ds.len() ==> order.take(p).contains(#[trigger] ds[t])
}

/// Every module in the order has all its catalog dependencies at earlier
/// positions.
pub open spec fn deps_respected(
    order: Seq<Seq<char>>,
    catalog: Seq<(Seq<char>, Seq<Seq<char>>)>,
) -> bool {
    forall|p: int|
        0 <= p < order.len() ==> deps_before(order, p, catalog_deps(catalog, #[trigger] order[p]))
}

proof fn lemma_deps_respected_concat(
    a: Seq<Seq<char>>,
    b: Seq<Seq<char>>,
    catalog: Seq<(Seq<char>, Seq<Seq<char>>)>,
)
    requires
        deps_respected(a, catalog),
        deps_respected(b, catalog),
    ensures
        deps_respected(a + b, catalog),
{
    assert forall|p: int| 0 <= p < (a + b).len() implies deps_before(
        a + b,
        p,
        catalog_deps(catalog, #[trigger] (a + b)[p]),
    ) by {
        if p < a.len() {
            assert((a + b)[p] == a[p]);
            let ds = catalog_deps(catalog, a[p]);
            assert forall|t: int| 0 <= t < ds.len() implies (a + b).take(p).contains(
                #[trigger] ds[t],
            ) by {
                assert(a.take(p).contains(ds[t]));
                let q = choose|q: int|
                    0 <= q < a.take(p).len() && (#[trigger] a.take(p)[q]) == ds[t];
                assert((a + b).take(p)[q] == ds[t]);
            }
        } else {
            assert((a + b)[p] == b[p - a.len()]);
            let ds = catalog_deps(catalog, b[p - a.len()]);
            assert(deps_before(b, p - a.len(), ds));
            assert forall|t: int| 0 <= t < ds.len() implies (a + b).take(p).contains(
                #[trigger] ds[t],
            ) by {
                assert(b.take(p - a.len()).contains(ds[t]));
                let q = choose|q: int|
                    0 <= q < b.take(p - a.len()).len() && (#[trigger] b.take(p - a.len())[q])
                        == ds[t];
                assert((a + b).take(p)[a.len() + q] == ds[t]);
            }
        }
    }
}

/// The law of the resolved order: a module stands after every one of its
/// catalog dependencies, at every depth.
pub proof fn lemma_order_deps_first(
    name: Seq<char>,
    catalog: Seq<(Seq<char>, Seq<Seq<char>>)>,
    visiting: Seq<Seq<char>>,
    fuel: nat,
)
    ensures
        match spec_order(name, catalog, visiting, fuel) {
            OrderOutcome::Done(order) => order.len() > 0 && order.last() == name
                && deps_respected(order, catalog),
            _ => true,
        },
    decreases fuel, 0int,
{
    if fuel > 0 && !visiting.contains(name) {
        match crate::models::assoc_get(catalog, name) {
            None => {},
            Some(deps) => {
                lemma_order_list_deps_first(deps, catalog, visiting.push(name), (fuel - 1) as nat);
                match spec_order_list(deps, catalog, visiting.push(name), (fuel - 1) as nat) {
                    OrderOutcome::Done(pre) => {
                        let order = pre + seq![name];
                        assert(order.last() == name);
                        assert forall|p: int| 0 <= p < order.len() implies deps_before(
                            order,
                            p,
                            catalog_deps(catalog, #[trigger] order[p]),
                        ) by {
                            if p < pre.len() {
                                assert(order[p] == pre[p]);
                                let ds = catalog_deps(catalog, pre[p]);
                                assert(deps_before(pre, p, ds));
                                assert forall|t: int| 0 <= t < ds.len() implies order.take(
                                    p,
                                ).contains(#[trigger] ds[t]) by {
                                    assert(pre.take(p).contains(ds[t]));
                                    let q = choose|q: int|
                                        0 <= q < pre.take(p).len() && (#[trigger] pre.take(p)[q])
                                            == ds[t];
                                    assert(order.take(p)[q] == ds[t]);
                                }
                            } else {
                                assert(order[p] == name);
                                let ds = catalog_deps(catalog, name);
                                assert(ds == deps);
                                assert forall|t: int| 0 <= t < ds.len() implies order.take(
                                    p,
                                ).contains(#[trigger] ds[t]) by {
                                    assert(pre.contains(deps[t]));
                                    let q = choose|q: int|
                                        0 <= q < pre.len() && (#[trigger] pre[q]) == deps[t];
                                    assert(order.take(p)[q] == ds[t]);
                                }
                            }
                        }
                    },
                    _ => {},
                }
            },
        }
    }
}

proof fn lemma_order_list_deps_first(
    deps: Seq<Seq<char>>,
    catalog: Seq<(Seq<char>, Seq<Seq<char>>)>,
    visiting: Seq<Seq<char>>,
    fuel: nat,
)
    ensures
        match spec_order_list(deps, catalog, visiting, fuel) {
            OrderOutcome::Done(pre) => deps_respected(pre, catalog) && forall|t: int|
                0 <= t < deps.len() ==> pre.contains(#[trigger] deps[t]),
            _ => true,
        },
    decreases fuel, 1int, deps.len(),
{
    if deps.len() == 0 {
        match spec_order_list(deps, catalog, visiting, fuel) {
            OrderOutcome::Done(pre) => {
                assert(deps_respected(pre, catalog));
            },
            _ => {},
        }
    } else {
        lemma_order_deps_first(deps[0], catalog, visiting, fuel);
        lemma_order_list_deps_first(deps.drop_first(), catalog, visiting, fuel);
        match spec_order(deps[0], catalog, visiting, fuel) {
            OrderOutcome::Done(first) => {
                match spec_order_list(deps.drop_first(), catalog, visiting, fuel) {
                    OrderOutcome::Done(rest) => {
                        lemma_deps_respected_concat(first, rest, catalog);
                        assert forall|t: int| 0 <= t < deps.len() implies (first + rest).contains(
                            #[trigger] deps[t],
                        ) by {
                            if t == 0 {
                                assert(first[first.len() - 1] == deps[0]);
                                assert((first + rest)[first.len() - 1] == deps[0]);
                            } else {
                                assert(rest.contains(deps.drop_first()[t - 1]));
                                assert(deps.drop_first()[t - 1] == deps[t]);
                                let q = choose|q: int|
                                    0 <= q < rest.len() && (#[trigger] rest[q]) == deps[t];
                                assert((first + rest)[first.len() + q] == deps[t]);
                            }
                        }
                    },
                    _ => {},
                }
            },
            _ => {},
        }
    }
}

#[verifier::loop_isolation(false)]
fn catalog_get<'a>(catalog: &'a Vec<(String, Vec<String>)>, name: &String) -> (r: Option<
    &'a Vec<String>,
>)
    ensures
        match r {
            Some(deps) => crate::models::assoc_get(catalog_pairs_view(catalog@), name@) == Some(
                deps.deep_view(),
            ),
            None => crate::models::assoc_get(catalog_pairs_view(catalog@), name@) is None,
        },
{
    let ghost cv = catalog_pairs_view(catalog@);
    proof {
        lemma_catalog_pairs_view_len(catalog@);
    }
    let mut i: usize = 0;
    while i < catalog.len()
        invariant
            i <= catalog@.len(),
            forall|j: int| 0 <= j < i ==> (#[trigger] cv[j]).0 != name@,
        decreases catalog@.len() - i,
    {
        if catalog[i].0 == *name {
            proof {
                crate::models::lemma_assoc_get_skip(cv, name@, i as int);
                assert(cv.skip(i as int)[0] == cv[i as int]);
            }
            return Some(&catalog[i].1);
        }
        i += 1;
    }
    proof {
        crate::models::lemma_assoc_get_skip(cv, name@, catalog@.len() as int);
        assert(cv.skip(catalog@.len() as int) =~= Seq::<(Seq<char>, Seq<Seq<char>>)>::empty());
    }
    None
}

#[verifier::loop_isolation(false)]
fn name_in(visiting: &Vec<String>, name: &String) -> (r: bool)
    ensures
        r == visiting.deep_view().contains(name@),
{
    let mut i: usize = 0;
    while i < visiting.len()
        invariant
            i <= visiting@.len(),
            forall|j: int| 0 <= j < i ==> visiting.deep_view()[j] != name@,
        decreases visiting@.len() - i,
    {
        if visiting[i] == *name {
            proof {
                assert(visiting.deep_view()[i as int] == name@);
            }
            return true;
        }
        i += 1;
    }
    proof {
        assert forall|j: int| 0 <= j < visiting.deep_view().len() implies visiting.deep_view()[j]
            != name@ by {}
    }
    false
}

#[verifier::loop_isolation(false)]
fn order_visit(
    name: &String,
    catalog: &Vec<(String, Vec<String>)>,
    visiting: &mut Vec<String>,
    fuel: usize,
) -> (r: Result<Vec<String>, OrderError>)
    ensures
        final(visiting).deep_view() == old(visiting).deep_view(),
        match r {
            Ok(order) => spec_order(
                name@,
                catalog_pairs_view(catalog@),
                old(visiting).deep_view(),
                fuel as nat,
            ) == OrderOutcome::Done(order.deep_view()),
            Err(OrderError::Missing(n)) => spec_order(
                name@,
                catalog_pairs_view(catalog@),
                old(visiting).deep_view(),
                fuel as nat,
            ) == OrderOutcome::Missing(n@),
            Err(OrderError::Cyclic(n)) => spec_order(
                name@,
                catalog_pairs_view(catalog@),
                old(visiting).deep_view(),
                fuel as nat,
            ) == OrderOutcome::Cyclic(n@),
        },
    decreases fuel, 0int,
{
    let ghost cv = catalog_pairs_view(catalog@);
    if fuel == 0 {
        return Err(OrderError::Cyclic(name.clone()));
    }
    if name_in(visiting, name) {
        return Err(OrderError::Cyclic(name.clone()));
    }
    match catalog_get(catalog, name) {
        None => Err(OrderError::Missing(name.clone())),
        Some(deps) => {
            let ghost dv = deps.deep_view();
            visiting.push(name.clone());
            let ghost vis2 = visiting.deep_view();
            proof {
                assert(vis2 =~= old(visiting).deep_view().push(name@));
            }
            let mut acc: Vec<String> = Vec::new();
            let mut j: usize = 0;
            proof {
                assert(acc.deep_view() =~= Seq::<Seq<char>>::empty());
                assert(dv.skip(0) =~= dv);
            }
            loop
                invariant
                    j <= deps@.len(),
                    visiting.deep_view() == vis2,
                    fuel >= 1,
                    match spec_order_list(dv.skip(j as int), cv, vis2, (fuel - 1) as nat) {
                        OrderOutcome::Done(rest) => spec_order_list(
                            dv,
                            cv,
                            vis2,
                            (fuel - 1) as nat,
                        ) == OrderOutcome::Done(acc.deep_view() + rest),
                        other => spec_order_list(dv, cv, vis2, (fuel - 1) as nat) == other,
                    },
                decreases deps@.len() - j,
            {
                if j >= deps.len() {
                    break ;
                }
                proof {
                    assert(dv.skip(j as int)[0] == dv[j as int]);
                    assert(dv.skip(j as int).len() == dv.len() - j);
                    assert(dv.skip(j as int).drop_first() =~= dv.skip(j + 1));
                }
                match order_visit(&deps[j], catalog, visiting, fuel - 1) {
                    Err(e) => {
                        proof {
                            assert(spec_order_list(dv.skip(j as int), cv, vis2, (fuel - 1) as nat)
                                == spec_order(dv[j as int], cv, vis2, (fuel - 1) as nat));
                        }
                        // the walk below failed; undo the marker before leaving
                        let ghost before_pop = visiting.deep_view();
                        let popped = visiting.pop();
                        proof {
                            assert(visiting.deep_view() =~= before_pop.drop_last());
                            assert(before_pop.drop_last() =~= old(visiting).deep_view());
                        }
                        return Err(e);
                    },
                    Ok(sub) => {
                        let ghost old_acc = acc.deep_view();
                        let ghost sub_view = sub.deep_view();
                        let mut sub_mut = sub;
                        acc.append(&mut sub_mut);
                        proof {
                            assert(acc.deep_view() =~= old_acc + sub_view);
                            let step = spec_order_list(
                                dv.skip(j as int),
                                cv,
                                vis2,
                                (fuel - 1) as nat,
                            );
                            let next = spec_order_list(dv.skip(j + 1), cv, vis2, (fuel - 1) as nat);
                            assert(step == (match next {
                                OrderOutcome::Done(rest) => OrderOutcome::Done(sub_view + rest),
                                other => other,
                            }));
                            if next is Done {
                                assert(old_acc + (sub_view + next->Done_0) =~= acc.deep_view()
                                    + next->Done_0);
                            }
                        }
                        j += 1;
                    },
                }
            }
            proof {
                assert(dv.skip(deps@.len() as int) =~= Seq::<Seq<char>>::empty());
                assert(spec_order_list(
                    dv.skip(deps@.len() as int),
                    cv,
                    vis2,
                    (fuel - 1) as nat,
                ) == OrderOutcome::Done(Seq::<Seq<char>>::empty()));
                assert(acc.deep_view() + Seq::<Seq<char>>::empty() =~= acc.deep_view());
            }
            let ghost before_pop = visiting.deep_view();
            let popped = visiting.pop();
            proof {
                assert(visiting.deep_view() =~= before_pop.drop_last());
                assert(before_pop.drop_last() =~= old(visiting).deep_view());
            }
            let ghost acc_view = acc.deep_view();
            let mut order = acc;
            order.push(name.clone());
            proof {
                assert(order.deep_view() =~= acc_view + seq![name@]);
                assert(spec_order_list(dv, cv, vis2, (fuel - 1) as nat) == OrderOutcome::Done(
                    acc_view,
                ));
            }
            Ok(order)
        },
    }
}

/// The order in which a module and its internal dependencies are installed:
/// every dependency before its dependent, depth first.  A dependency missing
/// from the catalog or a cyclic dependency chain is an error naming the
/// module at fault.
pub fn resolve_install_order(plugin_name: &String, catalog: &Vec<(String, Vec<String>)>) -> (r:
    Result<Vec<String>, OrderError>)
    requires
        catalog@.len() < usize::MAX,
    ensures
        match r {
            Ok(order) => spec_order(
                plugin_name@,
                catalog_pairs_view(catalog@),
                Seq::empty(),
                (catalog@.len() + 1) as nat,
            ) == OrderOutcome::Done(order.deep_view()) && order.deep_view().len() > 0
                && order.deep_view().last() == plugin_name@ && deps_respected(
                order.deep_view(),
                catalog_pairs_view(catalog@),
            ),
            Err(OrderError::Missing(n)) => spec_order(
                plugin_name@,
                catalog_pairs_view(catalog@),
                Seq::empty(),
                (catalog@.len() + 1) as nat,
            ) == OrderOutcome::Missing(n@),
            Err(OrderError::Cyclic(n)) => spec_order(
                plugin_name@,
                catalog_pairs_view(catalog@),
                Seq::empty(),
                (catalog@.len() + 1) as nat,
            ) == OrderOutcome::Cyclic(n@),
        },
{
    let mut visiting: Vec<String> = Vec::new();
    proof {
        assert(visiting.deep_view() =~= Seq::<Seq<char>>::empty());
        lemma_order_deps_first(
            plugin_name@,
            catalog_pairs_view(catalog@),
            Seq::empty(),
            (catalog@.len() + 1) as nat,
        );
    }
    order_visit(plugin_name, catalog, &mut visiting, catalog.len() + 1)
}

} // verus!
