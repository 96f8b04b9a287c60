use vstd::prelude::*;

use crate::models::{
    assoc_get, assoc_has, clone_file_pairs, entries_view, entry_pairs_get, entry_pairs_view,
    lemma_entries_view_len, lemma_entry_pairs_view_len, EntryType, EntryV, ModuleState, PluginInfo,
    PluginInfoV,
};
use crate::modules::install::{build_command, build_command_spec, BuildCommand, InstallError};
use crate::prompts::{
    arrays_nonempty, ctx_after_items, ctx_after_read, ctx_insert, expanded_from, read, read_array,
    short_names_of, spec_read, spec_read_items, AnswerFeed, Answer, AnswerV, CollectError, Context,
    CtxValue, CtxValueV,
};
use crate::template::{add_files_as_vars, file_actions, file_vars, FileAction};

verus! {

// ---------------------------------------------------------------------------
// Updating an installed module.
//
// An update reconciles three views of the module: the installed data record
// (the values the operator answered at install time), the installed
// descriptor copy, and the repository's current descriptor.  Keys present in
// both schemas keep their answered value, keys new to the schema are
// collected, removed keys are dropped; lists that survived may grow by
// appended elements.  The descriptor metadata is replaced wholesale by the
// repository's.
// ---------------------------------------------------------------------------

/// What to do before an update: proceed, silently do nothing, or stop with a
/// fatal error — reported where the module is not installed or has left the
/// repository, fatal only when the caller asked for that.
#[derive(PartialEq, Eq, Structural, Clone, Copy, Debug)]
pub enum Precheck {
    Proceed,
    SkipQuietly,
    AbortFatal,
}

pub fn update_precheck(installed: bool, in_repo: bool, fail_on_error: bool) -> (r: Precheck)
    ensures
        r == (if installed && in_repo {
            Precheck::Proceed
        } else if fail_on_error {
            Precheck::AbortFatal
        } else {
            Precheck::SkipQuietly
        }),
{
    if installed && in_repo {
        Precheck::Proceed
    } else if fail_on_error {
        Precheck::AbortFatal
    } else {
        Precheck::SkipQuietly
    }
}

/// What an internal dependency's state asks for: a fresh install, a silent
/// update, or nothing.
#[derive(PartialEq, Eq, Structural, Clone, Copy, Debug)]
pub enum DepAction {
    InstallIt,
    UpdateIt,
    Skip,
}

pub fn dep_action(state: ModuleState) -> (r: DepAction)
    ensures
        r == (match state {
            ModuleState::NotInstalled => DepAction::InstallIt,
            ModuleState::UpToDate => DepAction::Skip,
            ModuleState::NeedsUpdate(_) => DepAction::UpdateIt,
        }),
{
    match state {
        ModuleState::NotInstalled => DepAction::InstallIt,
        ModuleState::UpToDate => DepAction::Skip,
        ModuleState::NeedsUpdate(_) => DepAction::UpdateIt,
    }
}

fn next_confirm(feed: &mut AnswerFeed) -> (r: Result<bool, CollectError>)
    requires
        old(feed).pos <= old(feed).answers@.len(),
    ensures
        final(feed).answers.deep_view() == old(feed).answers.deep_view(),
        old(feed).pos <= final(feed).pos <= final(feed).answers@.len(),
        match r {
            Ok(b) => old(feed).pos < old(feed).answers@.len() && old(feed).answers.deep_view()[old(
                feed,
            ).pos as int] == AnswerV::Confirm(b) && final(feed).pos == old(feed).pos + 1,
            Err(_) => (old(feed).pos >= old(feed).answers@.len() || !(old(
                feed,
            ).answers.deep_view()[old(feed).pos as int] is Confirm)) && final(feed).pos == old(
                feed,
            ).pos,
        },
{
    if feed.pos >= feed.answers.len() {
        return Err(CollectError::Cancelled);
    }
    match &feed.answers[feed.pos] {
        Answer::Confirm(b) => {
            let v = *b;
            feed.pos = feed.pos + 1;
            Ok(v)
        },
        _ => Err(CollectError::Cancelled),
    }
}

// ---------------------------------------------------------------------------
// Schema reconciliation: the repository's placeholder schema decides the key
// set and order; keys whose value was already answered keep it, new keys are
// collected, removed keys are dropped.
// ---------------------------------------------------------------------------

pub open spec fn spec_merge_fields(
    new_fields: Seq<(Seq<char>, EntryV)>,
    old_map: Seq<(Seq<char>, EntryV)>,
    answers: Seq<AnswerV>,
    i: int,
) -> Option<(Seq<(Seq<char>, EntryV)>, int)>
    decreases new_fields.len(),
{
    if new_fields.len() == 0 {
        Some((Seq::empty(), i))
    } else {
        let k = new_fields[0].0;
        match assoc_get(old_map, k) {
            Some(v) => match spec_merge_fields(new_fields.drop_first(), old_map, answers, i) {
                None => None,
                Some((rest, j)) => Some((seq![(k, v)] + rest, j)),
            },
            None => match spec_read(new_fields[0].1, answers, i) {
                None => None,
                Some((m, j)) => if i <= j <= answers.len() {
                    match spec_merge_fields(new_fields.drop_first(), old_map, answers, j) {
                        None => None,
                        Some((rest, j2)) => Some((seq![(k, m)] + rest, j2)),
                    }
                } else {
                    None
                },
            },
        }
    }
}

/// The context a merge builds: the resolution effects of the freshly
/// collected keys, in schema order; kept keys add nothing here.
pub open spec fn merge_ctx(
    fields: Seq<(Seq<char>, EntryV)>,
    old_map: Seq<(Seq<char>, EntryV)>,
    ctx: Seq<(Seq<char>, CtxValueV)>,
) -> Seq<(Seq<char>, CtxValueV)>
    decreases fields.len(),
{
    if fields.len() == 0 {
        ctx
    } else {
        merge_ctx(
            fields.drop_first(),
            old_map,
            if assoc_has(old_map, fields[0].0) {
                ctx
            } else {
                ctx_after_read(fields[0].0, fields[0].1, ctx)
            },
        )
    }
}

proof fn lemma_merge_ctx_snoc(
    a: Seq<(Seq<char>, EntryV)>,
    x: (Seq<char>, EntryV),
    old_map: Seq<(Seq<char>, EntryV)>,
    ctx: Seq<(Seq<char>, CtxValueV)>,
)
    ensures
        merge_ctx(a + seq![x], old_map, ctx) == (if assoc_has(old_map, x.0) {
            merge_ctx(a, old_map, ctx)
        } else {
            ctx_after_read(x.0, x.1, merge_ctx(a, old_map, ctx))
        }),
    decreases a.len(),
{
    if a.len() == 0 {
        assert(a + seq![x] =~= seq![x]);
        assert(seq![x][0] == x);
        assert(merge_ctx(seq![x], old_map, ctx) == merge_ctx(
            seq![x].drop_first(),
            old_map,
            if assoc_has(old_map, x.0) {
                ctx
            } else {
                ctx_after_read(x.0, x.1, ctx)
            },
        ));
        assert(seq![x].drop_first() =~= Seq::<(Seq<char>, EntryV)>::empty());
    } else {
        assert((a + seq![x]).drop_first() =~= a.drop_first() + seq![x]);
        assert((a + seq![x])[0] == a[0]);
        assert(merge_ctx(a + seq![x], old_map, ctx) == merge_ctx(
            (a + seq![x]).drop_first(),
            old_map,
            if assoc_has(old_map, a[0].0) {
                ctx
            } else {
                ctx_after_read(a[0].0, a[0].1, ctx)
            },
        ));
        lemma_merge_ctx_snoc(
            a.drop_first(),
            x,
            old_map,
            if assoc_has(old_map, a[0].0) {
                ctx
            } else {
                ctx_after_read(a[0].0, a[0].1, ctx)
            },
        );
    }
}

/// How a merged value relates to its model: a kept key's value is exactly the
/// answered one; a freshly collected one matches up to tilde expansion.
pub open spec fn merged_like(
    old_map: Seq<(Seq<char>, EntryV)>,
    m: Seq<(Seq<char>, EntryV)>,
    a: Seq<(Seq<char>, EntryV)>,
) -> bool {
    m.len() == a.len() && forall|idx: int|
        0 <= idx < m.len() ==> (#[trigger] a[idx]).0 == m[idx].0 && (if assoc_has(
            old_map,
            m[idx].0,
        ) {
            a[idx].1 == m[idx].1
        } else {
            expanded_from(m[idx].1, a[idx].1)
        })
}

/// Reconcile the repository's placeholder schema with the answered values:
/// keys present in the prior record keep their value, keys new to the schema
/// are collected through the feed, keys no longer in the schema are dropped.
#[verifier::loop_isolation(false)]
pub fn merge_placeholders(
    new_placeholders: &Vec<(String, EntryType)>,
    old_data: &Vec<(String, EntryType)>,
    map_builder: Context,
    feed: &mut AnswerFeed,
) -> (r: Result<(Context, Vec<(String, EntryType)>), CollectError>)
    requires
        old(feed).pos <= old(feed).answers@.len(),
        forall|k: int|
            0 <= k < entry_pairs_view(new_placeholders@).len() ==> arrays_nonempty(
                (#[trigger] entry_pairs_view(new_placeholders@)[k]).1,
            ),
    ensures
        final(feed).answers.deep_view() == old(feed).answers.deep_view(),
        old(feed).pos <= final(feed).pos <= final(feed).answers@.len(),
        match r {
            Ok(p) => ({
                let m = spec_merge_fields(
                    entry_pairs_view(new_placeholders@),
                    entry_pairs_view(old_data@),
                    old(feed).answers.deep_view(),
                    old(feed).pos as int,
                );
                &&& m is Some
                &&& final(feed).pos as int == m->Some_0.1
                &&& merged_like(
                    entry_pairs_view(old_data@),
                    m->Some_0.0,
                    entry_pairs_view(p.1@),
                )
                &&& p.0@ == merge_ctx(
                    entry_pairs_view(p.1@),
                    entry_pairs_view(old_data@),
                    map_builder@,
                )
            }),
            Err(_) => spec_merge_fields(
                entry_pairs_view(new_placeholders@),
                entry_pairs_view(old_data@),
                old(feed).answers.deep_view(),
                old(feed).pos as int,
            ) is None,
        },
{
    let ghost nv = entry_pairs_view(new_placeholders@);
    let ghost om = entry_pairs_view(old_data@);
    let ghost answers = old(feed).answers.deep_view();
    proof {
        lemma_entry_pairs_view_len(new_placeholders@);
    }
    let mut ctx = map_builder;
    let mut out: Vec<(String, EntryType)> = Vec::new();
    let mut i: usize = 0;
    proof {
        assert(entry_pairs_view(out@) =~= Seq::<(Seq<char>, EntryV)>::empty());
        lemma_entry_pairs_view_len(out@);
        assert(nv.skip(0) =~= nv);
    }
    loop
        invariant
            i <= new_placeholders@.len(),
            feed.answers.deep_view() == answers,
            old(feed).pos <= feed.pos <= feed.answers@.len(),
            out@.len() == i,
            ctx@ == merge_ctx(entry_pairs_view(out@), om, map_builder@),
            match spec_merge_fields(nv.skip(i as int), om, answers, feed.pos as int) {
                None => spec_merge_fields(nv, om, answers, old(feed).pos as int) is None,
                Some((rest, jj)) => ({
                    &&& spec_merge_fields(nv, om, answers, old(feed).pos as int) is Some
                    &&& spec_merge_fields(nv, om, answers, old(feed).pos as int)->Some_0.1 == jj
                    &&& {
                        let whole = spec_merge_fields(nv, om, answers, old(feed).pos as int)->Some_0.0;
                        &&& whole.len() == i + rest.len()
                        &&& whole.skip(i as int) == rest
                        &&& forall|k: int|
                            0 <= k < i ==> (#[trigger] whole[k]).0 == entry_pairs_view(out@)[k].0
                                && (if assoc_has(om, whole[k].0) {
                                entry_pairs_view(out@)[k].1 == whole[k].1
                            } else {
                                expanded_from(whole[k].1, entry_pairs_view(out@)[k].1)
                            })
                    }
                }),
            },
        decreases new_placeholders@.len() - i,
    {
        if i >= new_placeholders.len() {
            break ;
        }
        proof {
            assert(nv.skip(i as int)[0] == nv[i as int]);
            assert(nv.skip(i as int).len() == nv.len() - i);
            assert(nv.skip(i as int).drop_first() =~= nv.skip(i + 1));
        }
        let ghost pos_before = feed.pos;
        let key = &new_placeholders[i].0;
        match entry_pairs_get(old_data, key.as_str()) {
            Some(kept) => {
                let kept_copy = kept.clone();
                let ghost old_out = out@;
                out.push((key.clone(), kept_copy));
                proof {
                    lemma_entry_pairs_view_len(old_out);
                    lemma_entry_pairs_view_len(out@);
                    crate::models::lemma_assoc_get_has(om, nv[i as int].0);
                    assert(entry_pairs_view(out@) =~= entry_pairs_view(old_out) + seq![
                        (nv[i as int].0, assoc_get(om, nv[i as int].0)->Some_0),
                    ]);
                    lemma_merge_ctx_snoc(
                        entry_pairs_view(old_out),
                        (nv[i as int].0, assoc_get(om, nv[i as int].0)->Some_0),
                        om,
                        map_builder@,
                    );
                    let step = spec_merge_fields(nv.skip(i as int), om, answers, pos_before as int);
                    let next = spec_merge_fields(nv.skip(i + 1), om, answers, feed.pos as int);
                    assert(step == (match next {
                        None => None::<(Seq<(Seq<char>, EntryV)>, int)>,
                        Some((rest, j2)) => Some(
                            (seq![(nv[i as int].0, assoc_get(om, nv[i as int].0)->Some_0)] + rest, j2),
                        ),
                    }));
                    if next is Some {
                        let whole = spec_merge_fields(nv, om, answers, old(feed).pos as int)->Some_0.0;
                        assert(whole.skip(i as int) == seq![
                            (nv[i as int].0, assoc_get(om, nv[i as int].0)->Some_0),
                        ] + next->Some_0.0);
                        assert(whole[i as int] == whole.skip(i as int)[0]);
                        assert(whole.skip(i as int).drop_first() =~= whole.skip(i + 1));
                        assert(whole.skip(i + 1) =~= next->Some_0.0);
                    }
                }
                i += 1;
            },
            None => {
                proof {
                    crate::models::lemma_assoc_get_has(om, nv[i as int].0);
                }
                let r = read(key.as_str(), &new_placeholders[i].1, ctx, feed);
                match r {
                    Err(e) => {
                        return Err(e);
                    },
                    Ok((ctx2, resolved)) => {
                        ctx = ctx2;
                        let ghost old_out = out@;
                        out.push((key.clone(), resolved));
                        proof {
                            lemma_entry_pairs_view_len(old_out);
                            lemma_entry_pairs_view_len(out@);
                            assert(entry_pairs_view(out@) =~= entry_pairs_view(old_out) + seq![
                                (nv[i as int].0, resolved@),
                            ]);
                            lemma_merge_ctx_snoc(
                                entry_pairs_view(old_out),
                                (nv[i as int].0, resolved@),
                                om,
                                map_builder@,
                            );
                            let m = spec_read(nv[i as int].1, answers, pos_before as int);
                            let step = spec_merge_fields(
                                nv.skip(i as int),
                                om,
                                answers,
                                pos_before as int,
                            );
                            let next = spec_merge_fields(nv.skip(i + 1), om, answers, feed.pos as int);
                            assert(step == (match next {
                                None => None::<(Seq<(Seq<char>, EntryV)>, int)>,
                                Some((rest, j2)) => Some(
                                    (seq![(nv[i as int].0, m->Some_0.0)] + rest, j2),
                                ),
                            }));
                            if next is Some {
                                let whole = spec_merge_fields(
                                    nv,
                                    om,
                                    answers,
                                    old(feed).pos as int,
                                )->Some_0.0;
                                assert(whole.skip(i as int) == seq![(nv[i as int].0, m->Some_0.0)]
                                    + next->Some_0.0);
                                assert(whole[i as int] == whole.skip(i as int)[0]);
                                assert(whole.skip(i as int).drop_first() =~= whole.skip(i + 1));
                                assert(whole.skip(i + 1) =~= next->Some_0.0);
                            }
                        }
                        i += 1;
                    },
                }
            },
        }
    }
    proof {
        assert(nv.skip(i as int) =~= Seq::<(Seq<char>, EntryV)>::empty());
        let whole = spec_merge_fields(nv, om, answers, old(feed).pos as int)->Some_0.0;
        assert(whole.len() == i);
        lemma_entry_pairs_view_len(out@);
    }
    Ok((ctx, out))
}

// ---------------------------------------------------------------------------
// List growth.
//
// A placeholder that is a list and existed in the prior data record may grow:
// unless the update runs silently, the operator is asked, and an affirmative
// answer collects new elements from the installed descriptor's prototype and
// appends them.  Declined or silent, the list stays as it is; either way its
// short-name summary is put into the context, and every placeholder's final
// value is put into the context under its key.
// ---------------------------------------------------------------------------

/// The prototype for new elements of a grown list: the first element of the
/// installed descriptor's list for that key, where the descriptor has one.
pub open spec fn growth_proto(old_cfg: Seq<(Seq<char>, EntryV)>, k: Seq<char>) -> Option<EntryV> {
    match assoc_get(old_cfg, k) {
        Some(EntryV::Array(protos)) => if protos.len() > 0 {
            Some(protos[0])
        } else {
            None
        },
        _ => None,
    }
}

pub open spec fn spec_refresh(
    fields: Seq<(Seq<char>, EntryV)>,
    old_map: Seq<(Seq<char>, EntryV)>,
    old_cfg: Seq<(Seq<char>, EntryV)>,
    silent: bool,
    answers: Seq<AnswerV>,
    i: int,
) -> Option<(Seq<(Seq<char>, EntryV)>, int)>
    decreases fields.len(),
{
    if fields.len() == 0 {
        Some((Seq::empty(), i))
    } else {
        let k = fields[0].0;
        let v = fields[0].1;
        let gate = v is Array && assoc_has(old_map, k);
        if !gate || silent {
            match spec_refresh(fields.drop_first(), old_map, old_cfg, silent, answers, i) {
                None => None,
                Some((rest, j)) => Some((seq![(k, v)] + rest, j)),
            }
        } else if 0 <= i < answers.len() && answers[i] is Confirm {
            if !(answers[i]->Confirm_0) {
                match spec_refresh(fields.drop_first(), old_map, old_cfg, silent, answers, i + 1) {
                    None => None,
                    Some((rest, j)) => Some((seq![(k, v)] + rest, j)),
                }
            } else {
                match growth_proto(old_cfg, k) {
                    None => match spec_refresh(
                        fields.drop_first(),
                        old_map,
                        old_cfg,
                        silent,
                        answers,
                        i + 1,
                    ) {
                        None => None,
                        Some((rest, j)) => Some((seq![(k, v)] + rest, j)),
                    },
                    Some(proto) => match spec_read_items(proto, answers, i + 1) {
                        None => None,
                        Some((new_items, j)) => if i + 1 <= j <= answers.len() {
                            match spec_refresh(
                                fields.drop_first(),
                                old_map,
                                old_cfg,
                                silent,
                                answers,
                                j,
                            ) {
                                None => None,
                                Some((rest, j2)) => Some(
                                    (seq![(k, EntryV::Array(v->Array_0 + new_items))] + rest, j2),
                                ),
                            }
                        } else {
                            None
                        },
                    },
                }
            }
        } else {
            None
        }
    }
}

/// The context a refresh builds, over the values before and after growth:
/// for every list that existed before, a short-name summary (of the appended
/// elements where the list grew, of the whole list otherwise) and the
/// appended elements' resolution effects; for every placeholder, its final
/// tree under its key.
pub open spec fn refresh_ctx(
    inputs: Seq<(Seq<char>, EntryV)>,
    fins: Seq<(Seq<char>, EntryV)>,
    old_map: Seq<(Seq<char>, EntryV)>,
    ctx: Seq<(Seq<char>, CtxValueV)>,
) -> Seq<(Seq<char>, CtxValueV)>
    decreases inputs.len(),
{
    if inputs.len() == 0 || fins.len() == 0 {
        ctx
    } else {
        refresh_ctx(
            inputs.drop_first(),
            fins.drop_first(),
            old_map,
            ctx_insert(
                refresh_field_ctx(inputs[0].0, inputs[0].1, fins[0].1, old_map, ctx),
                fins[0].0,
                CtxValueV::Tree(fins[0].1),
            ),
        )
    }
}

pub open spec fn refresh_field_ctx(
    k: Seq<char>,
    vin: EntryV,
    vf: EntryV,
    old_map: Seq<(Seq<char>, EntryV)>,
    ctx: Seq<(Seq<char>, CtxValueV)>,
) -> Seq<(Seq<char>, CtxValueV)> {
    if vin is Array && vf is Array && assoc_has(old_map, k) {
        let n0 = vin->Array_0.len() as int;
        let fi = vf->Array_0;
        if fi.len() > n0 {
            let appended = fi.skip(n0);
            ctx_insert(
                ctx_after_items(k, appended, ctx),
                k + "_shortNames"@,
                CtxValueV::Str(short_names_of(appended)),
            )
        } else {
            ctx_insert(ctx, k + "_shortNames"@, CtxValueV::Str(short_names_of(fi)))
        }
    } else {
        ctx
    }
}

proof fn lemma_refresh_ctx_snoc(
    a: Seq<(Seq<char>, EntryV)>,
    b: Seq<(Seq<char>, EntryV)>,
    x: (Seq<char>, EntryV),
    y: (Seq<char>, EntryV),
    old_map: Seq<(Seq<char>, EntryV)>,
    ctx: Seq<(Seq<char>, CtxValueV)>,
)
    requires
        a.len() == b.len(),
    ensures
        refresh_ctx(a + seq![x], b + seq![y], old_map, ctx) == ctx_insert(
            refresh_field_ctx(x.0, x.1, y.1, old_map, refresh_ctx(a, b, old_map, ctx)),
            y.0,
            CtxValueV::Tree(y.1),
        ),
    decreases a.len(),
{
    if a.len() == 0 {
        assert(a + seq![x] =~= seq![x]);
        assert(b + seq![y] =~= seq![y]);
        assert(seq![x][0] == x);
        assert(seq![y][0] == y);
        assert(refresh_ctx(seq![x], seq![y], old_map, ctx) == refresh_ctx(
            seq![x].drop_first(),
            seq![y].drop_first(),
            old_map,
            ctx_insert(refresh_field_ctx(x.0, x.1, y.1, old_map, ctx), y.0, CtxValueV::Tree(y.1)),
        ));
        assert(seq![x].drop_first() =~= Seq::<(Seq<char>, EntryV)>::empty());
        assert(refresh_ctx(
            seq![x].drop_first(),
            seq![y].drop_first(),
            old_map,
            ctx_insert(refresh_field_ctx(x.0, x.1, y.1, old_map, ctx), y.0, CtxValueV::Tree(y.1)),
        ) == ctx_insert(refresh_field_ctx(x.0, x.1, y.1, old_map, ctx), y.0, CtxValueV::Tree(y.1)));
    } else {
        assert((a + seq![x]).drop_first() =~= a.drop_first() + seq![x]);
        assert((b + seq![y]).drop_first() =~= b.drop_first() + seq![y]);
        assert((a + seq![x])[0] == a[0]);
        assert((b + seq![y])[0] == b[0]);
        assert(refresh_ctx(a + seq![x], b + seq![y], old_map, ctx) == refresh_ctx(
            (a + seq![x]).drop_first(),
            (b + seq![y]).drop_first(),
            old_map,
            ctx_insert(
                refresh_field_ctx(a[0].0, a[0].1, b[0].1, old_map, ctx),
                b[0].0,
                CtxValueV::Tree(b[0].1),
            ),
        ));
        lemma_refresh_ctx_snoc(
            a.drop_first(),
            b.drop_first(),
            x,
            y,
            old_map,
            ctx_insert(
                refresh_field_ctx(a[0].0, a[0].1, b[0].1, old_map, ctx),
                b[0].0,
                CtxValueV::Tree(b[0].1),
            ),
        );
    }
}

/// How a refreshed value relates to its model: an ungrown one is exactly the
/// value that went in; a grown list keeps what it had and appends collected
/// elements, matched up to tilde expansion.
pub open spec fn refreshed_like(
    input: Seq<(Seq<char>, EntryV)>,
    m: Seq<(Seq<char>, EntryV)>,
    a: Seq<(Seq<char>, EntryV)>,
) -> bool {
    &&& m.len() == input.len()
    &&& a.len() == input.len()
    &&& forall|idx: int|
        0 <= idx < input.len() ==> (#[trigger] a[idx]).0 == input[idx].0 && m[idx].0
            == input[idx].0 && (if m[idx].1 == input[idx].1 {
            a[idx].1 == input[idx].1
        } else {
            {
                &&& input[idx].1 is Array
                &&& m[idx].1 is Array
                &&& a[idx].1 is Array
                &&& {
                    let n0 = input[idx].1->Array_0.len() as int;
                    let mi = m[idx].1->Array_0;
                    let ai = a[idx].1->Array_0;
                    &&& mi.len() == ai.len()
                    &&& mi.len() >= n0
                    &&& mi.take(n0) == input[idx].1->Array_0
                    &&& ai.take(n0) == input[idx].1->Array_0
                    &&& forall|t: int| n0 <= t < mi.len() ==> expanded_from(#[trigger] mi[t], ai[t])
                }
            }
        })
}

/// Grow the lists of a reconciled record and put every final value into the
/// context.
#[verifier::loop_isolation(false)]
#[verifier::rlimit(100)]
pub fn refresh_placeholders(
    fields: &Vec<(String, EntryType)>,
    old_data: &Vec<(String, EntryType)>,
    old_config: &Vec<(String, EntryType)>,
    silent: bool,
    map_builder: Context,
    feed: &mut AnswerFeed,
) -> (r: Result<(Context, Vec<(String, EntryType)>), CollectError>)
    requires
        old(feed).pos <= old(feed).answers@.len(),
        forall|k: int|
            0 <= k < entry_pairs_view(old_config@).len() ==> arrays_nonempty(
                (#[trigger] entry_pairs_view(old_config@)[k]).1,
            ),
    ensures
        final(feed).answers.deep_view() == old(feed).answers.deep_view(),
        old(feed).pos <= final(feed).pos <= final(feed).answers@.len(),
        silent ==> final(feed).pos == old(feed).pos,
        match r {
            Ok(p) => ({
                let m = spec_refresh(
                    entry_pairs_view(fields@),
                    entry_pairs_view(old_data@),
                    entry_pairs_view(old_config@),
                    silent,
                    old(feed).answers.deep_view(),
                    old(feed).pos as int,
                );
                &&& m is Some
                &&& final(feed).pos as int == m->Some_0.1
                &&& refreshed_like(
                    entry_pairs_view(fields@),
                    m->Some_0.0,
                    entry_pairs_view(p.1@),
                )
                &&& p.0@ == refresh_ctx(
                    entry_pairs_view(fields@),
                    entry_pairs_view(p.1@),
                    entry_pairs_view(old_data@),
                    map_builder@,
                )
            }),
            Err(_) => spec_refresh(
                entry_pairs_view(fields@),
                entry_pairs_view(old_data@),
                entry_pairs_view(old_config@),
                silent,
                old(feed).answers.deep_view(),
                old(feed).pos as int,
            ) is None,
        },
{
    let ghost fv = entry_pairs_view(fields@);
    proof {
        assert(fv.take(0) =~= Seq::<(Seq<char>, EntryV)>::empty());
    }
    let ghost om = entry_pairs_view(old_data@);
    let ghost cm = entry_pairs_view(old_config@);
    let ghost answers = old(feed).answers.deep_view();
    proof {
        lemma_entry_pairs_view_len(fields@);
        lemma_entry_pairs_view_len(old_config@);
    }
    let mut ctx = map_builder;
    let mut out: Vec<(String, EntryType)> = Vec::new();
    let mut i: usize = 0;
    proof {
        assert(entry_pairs_view(out@) =~= Seq::<(Seq<char>, EntryV)>::empty());
        lemma_entry_pairs_view_len(out@);
        assert(fv.skip(0) =~= fv);
    }
    loop
        invariant
            i <= fields@.len(),
            feed.answers.deep_view() == answers,
            old(feed).pos <= feed.pos <= feed.answers@.len(),
            silent ==> feed.pos == old(feed).pos,
            out@.len() == i,
            ctx@ == refresh_ctx(fv.take(i as int), entry_pairs_view(out@), om, map_builder@),
            match spec_refresh(fv.skip(i as int), om, cm, silent, answers, feed.pos as int) {
                None => spec_refresh(fv, om, cm, silent, answers, old(feed).pos as int) is None,
                Some((rest, jj)) => ({
                    &&& spec_refresh(fv, om, cm, silent, answers, old(feed).pos as int) is Some
                    &&& spec_refresh(fv, om, cm, silent, answers, old(feed).pos as int)->Some_0.1
                        == jj
                    &&& {
                        let whole = spec_refresh(
                            fv,
                            om,
                            cm,
                            silent,
                            answers,
                            old(feed).pos as int,
                        )->Some_0.0;
                        &&& whole.len() == i + rest.len()
                        &&& whole.skip(i as int) == rest
                        &&& forall|k: int|
                            0 <= k < i ==> (#[trigger] whole[k]).0 == fv[k].0 && entry_pairs_view(
                                out@,
                            )[k].0 == fv[k].0 && (if whole[k].1 == fv[k].1 {
                                entry_pairs_view(out@)[k].1 == fv[k].1
                            } else {
                                {
                                    &&& fv[k].1 is Array
                                    &&& whole[k].1 is Array
                                    &&& entry_pairs_view(out@)[k].1 is Array
                                    &&& {
                                        let n0 = fv[k].1->Array_0.len() as int;
                                        let mi = whole[k].1->Array_0;
                                        let ai = entry_pairs_view(out@)[k].1->Array_0;
                                        &&& mi.len() == ai.len()
                                        &&& mi.len() >= n0
                                        &&& mi.take(n0) == fv[k].1->Array_0
                                        &&& ai.take(n0) == fv[k].1->Array_0
                                        &&& forall|t: int|
                                            n0 <= t < mi.len() ==> expanded_from(
                                                #[trigger] mi[t],
                                                ai[t],
                                            )
                                    }
                                }
                            })
                    }
                }),
            },
        decreases fields@.len() - i,
    {
        if i >= fields.len() {
            break ;
        }
        proof {
            assert(fv.skip(i as int)[0] == fv[i as int]);
            assert(fv.skip(i as int).len() == fv.len() - i);
            assert(fv.skip(i as int).drop_first() =~= fv.skip(i + 1));
        }
        let ghost pos_before = feed.pos;
        let key = fields[i].0.clone();
        let value = fields[i].1.clone();
        let is_array: bool = match &value {
            EntryType::Array(_) => true,
            _ => false,
        };
        let has_prior: bool = match entry_pairs_get(old_data, key.as_str()) {
            Some(_) => true,
            None => false,
        };
        proof {
            crate::models::lemma_assoc_get_has(om, fv[i as int].0);
        }
        if !(is_array && has_prior) || silent {
            // the value stands as it is
            let tree_copy = value.clone();
            if is_array && has_prior {
                // inject the summary of the unchanged list
                let names = match &value {
                    EntryType::Array(items) => crate::prompts::get_short_names(items.as_slice()),
                    _ => String::new(),
                };
                proof {
                    lemma_entries_view_len(
                        match &value {
                            EntryType::Array(items) => items@,
                            _ => Seq::empty(),
                        },
                    );
                }
                ctx.insert(crate::prompts::sn_key(key.as_str()), CtxValue::Str(names));
            }
            ctx.insert(key.clone(), CtxValue::Tree(tree_copy));
            let ghost old_out = out@;
            out.push((key, value));
            proof {
                lemma_entry_pairs_view_len(old_out);
                lemma_entry_pairs_view_len(out@);
                assert(entry_pairs_view(out@) =~= entry_pairs_view(old_out) + seq![
                    (fv[i as int].0, fv[i as int].1),
                ]);
                assert(fv.take(i + 1) =~= fv.take(i as int) + seq![fv[i as int]]);
                lemma_refresh_ctx_snoc(
                    fv.take(i as int),
                    entry_pairs_view(old_out),
                    fv[i as int],
                    (fv[i as int].0, fv[i as int].1),
                    om,
                    map_builder@,
                );
                let step = spec_refresh(fv.skip(i as int), om, cm, silent, answers, pos_before as int);
                let next = spec_refresh(fv.skip(i + 1), om, cm, silent, answers, feed.pos as int);
                assert(step == (match next {
                    None => None::<(Seq<(Seq<char>, EntryV)>, int)>,
                    Some((rest, j2)) => Some((seq![(fv[i as int].0, fv[i as int].1)] + rest, j2)),
                }));
                if next is Some {
                    let whole = spec_refresh(fv, om, cm, silent, answers, old(feed).pos as int)->Some_0.0;
                    assert(whole.skip(i as int) == seq![(fv[i as int].0, fv[i as int].1)]
                        + next->Some_0.0);
                    assert(whole[i as int] == whole.skip(i as int)[0]);
                    assert(whole.skip(i as int).drop_first() =~= whole.skip(i + 1));
                    assert(whole.skip(i + 1) =~= next->Some_0.0);
                }
            }
            i += 1;
        } else {
            // ask whether new elements are wanted
            let go = match next_confirm(feed) {
                Err(e) => {
                    return Err(e);
                },
                Ok(b) => b,
            };
            let proto: Option<&EntryType> = if go {
                match entry_pairs_get(old_config, key.as_str()) {
                    Some(found) => match found {
                        EntryType::Array(protos) => {
                            if protos.len() > 0 {
                                proof {
                                    lemma_entries_view_len(protos@);
                                    lemma_assoc_get_nonempty_arrays(cm, fv[i as int].0);
                                }
                                Some(&protos[0])
                            } else {
                                None
                            }
                        },
                        _ => None,
                    },
                    None => None,
                }
            } else {
                None
            };
            match proto {
                None => {
                    // declined, or no usable prototype: keep the list
                    let names = match &value {
                        EntryType::Array(items) => crate::prompts::get_short_names(
                            items.as_slice(),
                        ),
                        _ => String::new(),
                    };
                    let tree_copy = value.clone();
                    ctx.insert(crate::prompts::sn_key(key.as_str()), CtxValue::Str(names));
                    ctx.insert(key.clone(), CtxValue::Tree(tree_copy));
                    let ghost old_out = out@;
                    out.push((key, value));
                    proof {
                        lemma_entry_pairs_view_len(old_out);
                        lemma_entry_pairs_view_len(out@);
                        assert(entry_pairs_view(out@) =~= entry_pairs_view(old_out) + seq![
                            (fv[i as int].0, fv[i as int].1),
                        ]);
                        assert(fv.take(i + 1) =~= fv.take(i as int) + seq![fv[i as int]]);
                        lemma_refresh_ctx_snoc(
                            fv.take(i as int),
                            entry_pairs_view(old_out),
                            fv[i as int],
                            (fv[i as int].0, fv[i as int].1),
                            om,
                            map_builder@,
                        );
                        let step = spec_refresh(
                            fv.skip(i as int),
                            om,
                            cm,
                            silent,
                            answers,
                            pos_before as int,
                        );
                        let next = spec_refresh(
                            fv.skip(i + 1),
                            om,
                            cm,
                            silent,
                            answers,
                            feed.pos as int,
                        );
                        assert(step == (match next {
                            None => None::<(Seq<(Seq<char>, EntryV)>, int)>,
                            Some((rest, j2)) => Some(
                                (seq![(fv[i as int].0, fv[i as int].1)] + rest, j2),
                            ),
                        }));
                        if next is Some {
                            let whole = spec_refresh(
                                fv,
                                om,
                                cm,
                                silent,
                                answers,
                                old(feed).pos as int,
                            )->Some_0.0;
                            assert(whole.skip(i as int) == seq![(fv[i as int].0, fv[i as int].1)]
                                + next->Some_0.0);
                            assert(whole[i as int] == whole.skip(i as int)[0]);
                            assert(whole.skip(i as int).drop_first() =~= whole.skip(i + 1));
                            assert(whole.skip(i + 1) =~= next->Some_0.0);
                        }
                    }
                    i += 1;
                },
                Some(p) => {
                    // collect and append new elements
                    let ghost pos_grow = feed.pos;
                    let r = read_array(key.as_str(), p, ctx, feed);
                    match r {
                        Err(e) => {
                            return Err(e);
                        },
                        Ok((ctx2, grown)) => {
                            ctx = ctx2;
                            let new_items: Vec<EntryType> = match grown {
                                EntryType::Array(items) => items,
                                _ => {
                                    proof {
                                        assert(false);
                                    }
                                    Vec::new()
                                },
                            };
                            let mut items: Vec<EntryType> = match value {
                                EntryType::Array(its) => its,
                                _ => {
                                    proof {
                                        assert(false);
                                    }
                                    Vec::new()
                                },
                            };
                            let ghost base_items = items@;
                            let ghost new_view = entries_view(new_items@);
                            let mut news = new_items;
                            let ghost pre_news = news@;
                            items.append(&mut news);
                            let final_value = EntryType::Array(items);
                            let tree_copy = final_value.clone();
                            ctx.insert(key.clone(), CtxValue::Tree(tree_copy));
                            let ghost old_out = out@;
                            out.push((key, final_value));
                            proof {
                                lemma_entry_pairs_view_len(old_out);
                                lemma_entry_pairs_view_len(out@);
                                lemma_entries_view_len(base_items);
                                let m_items = spec_read_items(p@, answers, pos_grow as int);
                                let fin = entry_pairs_view(out@)[i as int].1;
                                lemma_entries_view_concat(base_items, pre_news);
                                assert(fin == EntryV::Array(
                                    entries_view(base_items) + entries_view(pre_news),
                                ));
                                assert(entries_view(pre_news) == new_view);
                                // the grown value and its context effect
                                assert(entry_pairs_view(out@) =~= entry_pairs_view(old_out) + seq![
                                    (
                                        fv[i as int].0,
                                        EntryV::Array(entries_view(base_items) + new_view),
                                    ),
                                ]);
                                assert(fv.take(i + 1) =~= fv.take(i as int) + seq![fv[i as int]]);
                                lemma_refresh_ctx_snoc(
                                    fv.take(i as int),
                                    entry_pairs_view(old_out),
                                    fv[i as int],
                                    (
                                        fv[i as int].0,
                                        EntryV::Array(entries_view(base_items) + new_view),
                                    ),
                                    om,
                                    map_builder@,
                                );
                                assert((entries_view(base_items) + new_view).skip(
                                    entries_view(base_items).len() as int,
                                ) =~= new_view);
                                assert((entries_view(base_items) + new_view).take(
                                    entries_view(base_items).len() as int,
                                ) =~= entries_view(base_items));
                                // step the model
                                let step = spec_refresh(
                                    fv.skip(i as int),
                                    om,
                                    cm,
                                    silent,
                                    answers,
                                    pos_before as int,
                                );
                                let next = spec_refresh(
                                    fv.skip(i + 1),
                                    om,
                                    cm,
                                    silent,
                                    answers,
                                    feed.pos as int,
                                );
                                let grown_model = EntryV::Array(
                                    fv[i as int].1->Array_0 + m_items->Some_0.0,
                                );
                                assert(step == (match next {
                                    None => None::<(Seq<(Seq<char>, EntryV)>, int)>,
                                    Some((rest, j2)) => Some(
                                        (seq![(fv[i as int].0, grown_model)] + rest, j2),
                                    ),
                                }));
                                if next is Some {
                                    let whole = spec_refresh(
                                        fv,
                                        om,
                                        cm,
                                        silent,
                                        answers,
                                        old(feed).pos as int,
                                    )->Some_0.0;
                                    assert(whole.skip(i as int) == seq![
                                        (fv[i as int].0, grown_model),
                                    ] + next->Some_0.0);
                                    assert(whole[i as int] == whole.skip(i as int)[0]);
                                    assert(whole.skip(i as int).drop_first() =~= whole.skip(i + 1));
                                    assert(whole.skip(i + 1) =~= next->Some_0.0);
                                    // relation for the grown field
                                    let n0 = fv[i as int].1->Array_0.len() as int;
                                    let mi = grown_model->Array_0;
                                    let ai = entries_view(base_items) + new_view;
                                    assert(entries_view(base_items) =~= fv[i as int].1->Array_0);
                                    assert(mi.take(n0) =~= fv[i as int].1->Array_0);
                                    assert(ai.take(n0) =~= fv[i as int].1->Array_0);
                                    assert forall|t: int| n0 <= t < mi.len() implies expanded_from(
                                        #[trigger] mi[t],
                                        ai[t],
                                    ) by {
                                        assert(mi[t] == m_items->Some_0.0[t - n0]);
                                        assert(ai[t] == new_view[t - n0]);
                                    }
                                }
                            }
                            i += 1;
                        },
                    }
                },
            }
        }
    }
    proof {
        assert(fv.skip(i as int) =~= Seq::<(Seq<char>, EntryV)>::empty());
        let whole = spec_refresh(fv, om, cm, silent, answers, old(feed).pos as int)->Some_0.0;
        assert(whole.len() == i);
        lemma_entry_pairs_view_len(out@);
    }
    Ok((ctx, out))
}

/// A silent refresh asks nothing and changes nothing.
pub proof fn lemma_spec_refresh_silent(
    fields: Seq<(Seq<char>, EntryV)>,
    old_map: Seq<(Seq<char>, EntryV)>,
    old_cfg: Seq<(Seq<char>, EntryV)>,
    answers: Seq<AnswerV>,
    i: int,
)
    ensures
        spec_refresh(fields, old_map, old_cfg, true, answers, i) == Some((fields, i)),
    decreases fields.len(),
{
    if fields.len() > 0 {
        lemma_spec_refresh_silent(fields.drop_first(), old_map, old_cfg, answers, i);
        assert(seq![(fields[0].0, fields[0].1)] + fields.drop_first() =~= fields);
    }
}

// ---------------------------------------------------------------------------
// The whole update.
// ---------------------------------------------------------------------------

#[derive(PartialEq, Eq, Structural, Clone, Copy, Debug)]
pub enum UpdateError {
    /// An externally-built package names neither a source repository nor a
    /// local path.
    BadPackage,
    /// A prompt went unanswered.
    Prompt(CollectError),
}

pub struct UpdateCommit {
    /// The data record to persist: the repository's metadata with the
    /// reconciled values.
    pub data: PluginInfo,
    /// The rendering context for the template.
    pub context: Context,
    /// The supporting-file copy plan; empty unless overwriting was asked for.
    pub file_actions: Vec<FileAction>,
    /// Whether supporting files are to be overwritten.
    pub overwrite_files: bool,
    /// The build step for an externally-built package, where one is needed.
    pub build: Option<BuildCommand>,
}

pub enum UpdateOutcome {
    /// The operator declined the final confirmation: nothing is written.
    Declined,
    Committed(UpdateCommit),
}

// ---------------------------------------------------------------------------
// The model of a whole update run.
//
// The run is reconciliation, then growth, then two confirmations (supporting
// files, and the write itself), then the build decision.  The values between
// reconciliation and growth are not part of the outcome, so the contract
// quantifies over them: `wm` below always stands for those values.
// ---------------------------------------------------------------------------

pub open spec fn placeholder_map(p: PluginInfoV) -> Seq<(Seq<char>, EntryV)> {
    match p.placeholders {
        Some(m) => m,
        None => Seq::empty(),
    }
}

/// Keys are reconciled only where the descriptor changed and the placeholder
/// schema changed with it.
pub open spec fn reconcile_gate(old_config: PluginInfoV, new_config: PluginInfoV) -> bool {
    old_config != new_config && old_config.placeholders != new_config.placeholders
}

/// Whether every prompt of the reconciliation pass is answered.
pub open spec fn reconcile_ok(
    od: PluginInfoV,
    oc: PluginInfoV,
    nc: PluginInfoV,
    answers: Seq<AnswerV>,
    i: int,
) -> bool {
    !reconcile_gate(oc, nc) || match nc.placeholders {
        None => true,
        Some(nf) => spec_merge_fields(nf, placeholder_map(od), answers, i) is Some,
    }
}

/// The position after the reconciliation pass, where it is answered.
pub open spec fn reconcile_end(
    od: PluginInfoV,
    oc: PluginInfoV,
    nc: PluginInfoV,
    answers: Seq<AnswerV>,
    i: int,
) -> int {
    if reconcile_gate(oc, nc) {
        match nc.placeholders {
            None => i,
            Some(nf) => spec_merge_fields(nf, placeholder_map(od), answers, i)->Some_0.1,
        }
    } else {
        i
    }
}

/// How the reconciled values `wm` relate to the inputs: where no
/// reconciliation runs they are the prior record's values unchanged;
/// otherwise the reconciled model, freshly collected keys matched up to
/// tilde expansion.
pub open spec fn reconciled_values(
    od: PluginInfoV,
    oc: PluginInfoV,
    nc: PluginInfoV,
    answers: Seq<AnswerV>,
    i: int,
    wm: Option<Seq<(Seq<char>, EntryV)>>,
) -> bool {
    if reconcile_gate(oc, nc) {
        match nc.placeholders {
            None => wm is None,
            Some(nf) => wm is Some && merged_like(
                placeholder_map(od),
                spec_merge_fields(nf, placeholder_map(od), answers, i)->Some_0.0,
                wm->Some_0,
            ),
        }
    } else {
        wm == od.placeholders
    }
}

/// Whether every prompt of the growth pass over `wm` is answered.
pub open spec fn growth_ok(
    od: PluginInfoV,
    oc: PluginInfoV,
    silent: bool,
    answers: Seq<AnswerV>,
    j: int,
    wm: Option<Seq<(Seq<char>, EntryV)>>,
) -> bool {
    match wm {
        None => true,
        Some(w) => spec_refresh(
            w,
            placeholder_map(od),
            placeholder_map(oc),
            silent,
            answers,
            j,
        ) is Some,
    }
}

/// The position after the growth pass, where it is answered.
pub open spec fn growth_end(
    od: PluginInfoV,
    oc: PluginInfoV,
    silent: bool,
    answers: Seq<AnswerV>,
    j: int,
    wm: Option<Seq<(Seq<char>, EntryV)>>,
) -> int {
    match wm {
        None => j,
        Some(w) => spec_refresh(
            w,
            placeholder_map(od),
            placeholder_map(oc),
            silent,
            answers,
            j,
        )->Some_0.1,
    }
}

/// How the committed values relate to `wm`: kept values exactly, grown lists
/// appended from the growth model.
pub open spec fn grown_values(
    od: PluginInfoV,
    oc: PluginInfoV,
    silent: bool,
    answers: Seq<AnswerV>,
    j: int,
    wm: Option<Seq<(Seq<char>, EntryV)>>,
    fin: Option<Seq<(Seq<char>, EntryV)>>,
) -> bool {
    match wm {
        None => fin is None,
        Some(w) => fin is Some && refreshed_like(
            w,
            spec_refresh(
                w,
                placeholder_map(od),
                placeholder_map(oc),
                silent,
                answers,
                j,
            )->Some_0.0,
            fin->Some_0,
        ),
    }
}

/// The next answer, where a confirmation stands there: its value and the
/// position after it.
pub open spec fn confirm_at(answers: Seq<AnswerV>, j: int) -> Option<(bool, int)> {
    if 0 <= j < answers.len() && answers[j] is Confirm {
        Some((answers[j]->Confirm_0, j + 1))
    } else {
        None
    }
}

/// The rendering context an update builds, over the values `wm` before growth
/// and `fin` after it: the collection effects of freshly reconciled keys, the
/// growth effects with every final tree, then the supporting files'
/// destination variables.
pub open spec fn update_ctx_model(
    nc: PluginInfoV,
    home: Seq<char>,
    old_map: Seq<(Seq<char>, EntryV)>,
    wm: Option<Seq<(Seq<char>, EntryV)>>,
    fin: Option<Seq<(Seq<char>, EntryV)>>,
) -> Seq<(Seq<char>, CtxValueV)> {
    let base = match (wm, fin) {
        (Some(w), Some(f)) => refresh_ctx(w, f, old_map, merge_ctx(w, old_map, Seq::empty())),
        _ => Seq::<(Seq<char>, CtxValueV)>::empty(),
    };
    match nc.supporting_files {
        Some(files) => file_vars(files, home, base),
        None => base,
    }
}

/// Both passes answered, with `wm` the values between them and `fin` the
/// committed values.
pub open spec fn update_flow_ok(
    od: PluginInfoV,
    oc: PluginInfoV,
    nc: PluginInfoV,
    silent: bool,
    answers: Seq<AnswerV>,
    i: int,
    wm: Option<Seq<(Seq<char>, EntryV)>>,
    fin: Option<Seq<(Seq<char>, EntryV)>>,
) -> bool {
    let j = reconcile_end(od, oc, nc, answers, i);
    &&& reconcile_ok(od, oc, nc, answers, i)
    &&& reconciled_values(od, oc, nc, answers, i, wm)
    &&& growth_ok(od, oc, silent, answers, j, wm)
    &&& grown_values(od, oc, silent, answers, j, wm, fin)
}

/// Which unanswered prompt stopped a run: one of the reconciliation pass, the
/// growth pass over `wm`, the files confirmation, or the final confirmation.
pub open spec fn update_prompt_unanswered(
    od: PluginInfoV,
    oc: PluginInfoV,
    nc: PluginInfoV,
    silent: bool,
    answers: Seq<AnswerV>,
    i: int,
    wm: Option<Seq<(Seq<char>, EntryV)>>,
) -> bool {
    let j = reconcile_end(od, oc, nc, answers, i);
    let j2 = growth_end(od, oc, silent, answers, j, wm);
    ||| !reconcile_ok(od, oc, nc, answers, i)
    ||| (reconcile_ok(od, oc, nc, answers, i) && reconciled_values(od, oc, nc, answers, i, wm)
        && !growth_ok(od, oc, silent, answers, j, wm))
    ||| (reconcile_ok(od, oc, nc, answers, i) && reconciled_values(od, oc, nc, answers, i, wm)
        && growth_ok(od, oc, silent, answers, j, wm) && !silent && (confirm_at(answers, j2) is None
        || (confirm_at(answers, j2) is Some && confirm_at(answers, j2 + 1) is None)))
}

/// Update one installed module against the repository's current descriptor.
/// Where the placeholder schema changed, keys are reconciled one by one; kept
/// lists may grow; the descriptor metadata is adopted wholesale.  Run
/// silently, nothing is asked: values stay, files are not overwritten, and
/// the update commits without a confirmation.
pub fn update(
    old_data: &PluginInfo,
    old_config: &PluginInfo,
    new_config: &PluginInfo,
    path_to_module: &str,
    home_path: &str,
    silent: bool,
    feed: &mut AnswerFeed,
) -> (r: Result<UpdateOutcome, UpdateError>)
    requires
        old(feed).pos <= old(feed).answers@.len(),
        match new_config.placeholders {
            Some(ps) => forall|k: int|
                0 <= k < entry_pairs_view(ps@).len() ==> arrays_nonempty(
                    (#[trigger] entry_pairs_view(ps@)[k]).1,
                ),
            None => true,
        },
        match old_config.placeholders {
            Some(ps) => forall|k: int|
                0 <= k < entry_pairs_view(ps@).len() ==> arrays_nonempty(
                    (#[trigger] entry_pairs_view(ps@)[k]).1,
                ),
            None => true,
        },
    ensures
        final(feed).answers.deep_view() == old(feed).answers.deep_view(),
        old(feed).pos <= final(feed).pos <= final(feed).answers@.len(),
        match r {
            Ok(UpdateOutcome::Committed(c)) => ({
                &&& c.data.plugin_info@ == new_config@.plugin_info
                &&& c.data@.supporting_files == old_data@.supporting_files
                &&& build_command_spec(config_plugin_type(new_config@), path_to_module@)
                    == Ok::<Option<crate::modules::install::BuildCommandV>, InstallError>(
                    match c.build {
                        Some(b) => Some(b@),
                        None => None,
                    },
                )
                &&& (silent ==> !c.overwrite_files)
                &&& (match new_config@.supporting_files {
                    Some(files) => (c.overwrite_files ==> c.file_actions.deep_view()
                        == file_actions(files, path_to_module@, home_path@)) && (!c.overwrite_files
                        ==> c.file_actions.deep_view() == Seq::<
                        crate::template::FileActionV,
                    >::empty()),
                    None => c.file_actions.deep_view() == Seq::<
                        crate::template::FileActionV,
                    >::empty(),
                })
                &&& exists|wm: Option<Seq<(Seq<char>, EntryV)>>|
                    #![trigger update_flow_ok(
                        old_data@,
                        old_config@,
                        new_config@,
                        silent,
                        old(feed).answers.deep_view(),
                        old(feed).pos as int,
                        wm,
                        c.data@.placeholders,
                    )]
                    ({
                        let answers = old(feed).answers.deep_view();
                        let i = old(feed).pos as int;
                        let j = reconcile_end(old_data@, old_config@, new_config@, answers, i);
                        let j2 = growth_end(old_data@, old_config@, silent, answers, j, wm);
                        &&& update_flow_ok(
                            old_data@,
                            old_config@,
                            new_config@,
                            silent,
                            answers,
                            i,
                            wm,
                            c.data@.placeholders,
                        )
                        &&& (if silent {
                            !c.overwrite_files && final(feed).pos as int == j2
                        } else {
                            &&& confirm_at(answers, j2) == Some((c.overwrite_files, j2 + 1))
                            &&& confirm_at(answers, j2 + 1) == Some((true, j2 + 2))
                            &&& final(feed).pos as int == j2 + 2
                        })
                        &&& c.context@ == update_ctx_model(
                            new_config@,
                            home_path@,
                            placeholder_map(old_data@),
                            wm,
                            c.data@.placeholders,
                        )
                    })
            }),
            Ok(UpdateOutcome::Declined) => !silent && exists|
                wm: Option<Seq<(Seq<char>, EntryV)>>,
                fin: Option<Seq<(Seq<char>, EntryV)>>,
            |
                #![trigger update_flow_ok(
                    old_data@,
                    old_config@,
                    new_config@,
                    silent,
                    old(feed).answers.deep_view(),
                    old(feed).pos as int,
                    wm,
                    fin,
                )]
                ({
                    let answers = old(feed).answers.deep_view();
                    let i = old(feed).pos as int;
                    let j = reconcile_end(old_data@, old_config@, new_config@, answers, i);
                    let j2 = growth_end(old_data@, old_config@, silent, answers, j, wm);
                    &&& update_flow_ok(
                        old_data@,
                        old_config@,
                        new_config@,
                        silent,
                        answers,
                        i,
                        wm,
                        fin,
                    )
                    &&& confirm_at(answers, j2) is Some
                    &&& confirm_at(answers, j2 + 1) == Some((false, j2 + 2))
                    &&& final(feed).pos as int == j2 + 2
                }),
            Err(UpdateError::BadPackage) => ({
                &&& build_command_spec(config_plugin_type(new_config@), path_to_module@)
                    == Err::<Option<crate::modules::install::BuildCommandV>, InstallError>(
                    InstallError::BadPackage,
                )
                &&& exists|
                    wm: Option<Seq<(Seq<char>, EntryV)>>,
                    fin: Option<Seq<(Seq<char>, EntryV)>>,
                |
                    #![trigger update_flow_ok(
                        old_data@,
                        old_config@,
                        new_config@,
                        silent,
                        old(feed).answers.deep_view(),
                        old(feed).pos as int,
                        wm,
                        fin,
                    )]
                    ({
                        let answers = old(feed).answers.deep_view();
                        let i = old(feed).pos as int;
                        let j = reconcile_end(old_data@, old_config@, new_config@, answers, i);
                        let j2 = growth_end(old_data@, old_config@, silent, answers, j, wm);
                        &&& update_flow_ok(
                            old_data@,
                            old_config@,
                            new_config@,
                            silent,
                            answers,
                            i,
                            wm,
                            fin,
                        )
                        &&& (if silent {
                            final(feed).pos as int == j2
                        } else {
                            &&& confirm_at(answers, j2) is Some
                            &&& confirm_at(answers, j2 + 1) == Some((true, j2 + 2))
                            &&& final(feed).pos as int == j2 + 2
                        })
                    })
            }),
            Err(UpdateError::Prompt(_)) => exists|wm: Option<Seq<(Seq<char>, EntryV)>>|
                #[trigger] update_prompt_unanswered(
                    old_data@,
                    old_config@,
                    new_config@,
                    silent,
                    old(feed).answers.deep_view(),
                    old(feed).pos as int,
                    wm,
                ),
        },
        (silent && old_config@.placeholders == new_config@.placeholders) ==> ({
            &&& final(feed).pos == old(feed).pos
            &&& match r {
                Ok(UpdateOutcome::Committed(c)) => c.data@.placeholders
                    == old_data@.placeholders,
                Ok(UpdateOutcome::Declined) => false,
                Err(e) => e == UpdateError::BadPackage,
            }
        }),
{
    let ghost answers = old(feed).answers.deep_view();
    let ghost pos0 = old(feed).pos as int;
    let config_changed = !crate::models::plugin_info_eq(old_config, new_config);
    let placeholders_changed = !crate::models::opt_placeholders_eq(
        &old_config.placeholders,
        &new_config.placeholders,
    );
    let empty_pairs: Vec<(String, EntryType)> = Vec::new();
    proof {
        assert(entry_pairs_view(empty_pairs@) =~= Seq::<(Seq<char>, EntryV)>::empty());
    }
    let old_ph: &Vec<(String, EntryType)> = match &old_data.placeholders {
        Some(v) => v,
        None => &empty_pairs,
    };
    let old_cfg_ph: &Vec<(String, EntryType)> = match &old_config.placeholders {
        Some(v) => v,
        None => &empty_pairs,
    };
    proof {
        assert(entry_pairs_view(old_ph@) == placeholder_map(old_data@));
        assert(entry_pairs_view(old_cfg_ph@) == placeholder_map(old_config@));
    }
    let ctx0 = Context::new();
    let do_reconcile = config_changed && placeholders_changed;
    proof {
        assert(do_reconcile == reconcile_gate(old_config@, new_config@));
    }
    let (ctx1, working): (Context, Option<Vec<(String, EntryType)>>) = if do_reconcile {
        match &new_config.placeholders {
            None => (ctx0, None),
            Some(nps) => {
                match merge_placeholders(nps, old_ph, ctx0, feed) {
                    Err(e) => {
                        proof {
                            assert(!reconcile_ok(
                                old_data@,
                                old_config@,
                                new_config@,
                                answers,
                                pos0,
                            ));
                            assert(update_prompt_unanswered(
                                old_data@,
                                old_config@,
                                new_config@,
                                silent,
                                answers,
                                pos0,
                                None::<Seq<(Seq<char>, EntryV)>>,
                            ));
                        }
                        return Err(UpdateError::Prompt(e));
                    },
                    Ok((c, v)) => (c, Some(v)),
                }
            },
        }
    } else {
        (
            ctx0,
            match &old_data.placeholders {
                Some(v) => Some(crate::models::clone_entry_pairs(v)),
                None => None,
            },
        )
    };
    let ghost pos_mid = feed.pos;
    let ghost working_view: Option<Seq<(Seq<char>, EntryV)>> = match working {
        Some(ref v) => Some(entry_pairs_view(v@)),
        None => None,
    };
    proof {
        assert(reconcile_ok(old_data@, old_config@, new_config@, answers, pos0));
        assert(reconciled_values(old_data@, old_config@, new_config@, answers, pos0, working_view));
        assert(pos_mid as int == reconcile_end(old_data@, old_config@, new_config@, answers, pos0));
        // where no reconciliation runs, the collection pass adds nothing
        if !do_reconcile {
            match working_view {
                Some(w) => {
                    assert forall|idx: int| 0 <= idx < w.len() implies assoc_has(
                        placeholder_map(old_data@),
                        (#[trigger] w[idx]).0,
                    ) by {
                        assert(placeholder_map(old_data@)[idx].0 == w[idx].0);
                    }
                    lemma_merge_ctx_all_prior(w, placeholder_map(old_data@), Seq::empty());
                },
                None => {},
            }
        }
        assert(match working_view {
            Some(w) => ctx1@ == merge_ctx(w, placeholder_map(old_data@), Seq::empty()),
            None => ctx1@ == Seq::<(Seq<char>, CtxValueV)>::empty(),
        });
        if silent && old_config@.placeholders == new_config@.placeholders {
            assert(!placeholders_changed);
            assert(working_view == old_data@.placeholders);
        }
    }
    let (ctx2, final_ph): (Context, Option<Vec<(String, EntryType)>>) = match working {
        Some(w) => {
            match refresh_placeholders(&w, old_ph, old_cfg_ph, silent, ctx1, feed) {
                Err(e) => {
                    proof {
                        if silent {
                            lemma_spec_refresh_silent(
                                entry_pairs_view(w@),
                                entry_pairs_view(old_ph@),
                                entry_pairs_view(old_cfg_ph@),
                                answers,
                                pos_mid as int,
                            );
                            assert(false);
                        }
                        assert(!growth_ok(
                            old_data@,
                            old_config@,
                            silent,
                            answers,
                            pos_mid as int,
                            working_view,
                        ));
                        assert(update_prompt_unanswered(
                            old_data@,
                            old_config@,
                            new_config@,
                            silent,
                            answers,
                            pos0,
                            working_view,
                        ));
                    }
                    return Err(UpdateError::Prompt(e));
                },
                Ok((c, v)) => {
                    proof {
                        if silent {
                            lemma_spec_refresh_silent(
                                entry_pairs_view(w@),
                                entry_pairs_view(old_ph@),
                                entry_pairs_view(old_cfg_ph@),
                                answers,
                                pos_mid as int,
                            );
                            crate::models::lemma_entry_pairs_view_len(w@);
                            crate::models::lemma_entry_pairs_view_len(v@);
                            assert(entry_pairs_view(v@) =~= entry_pairs_view(w@));
                        }
                    }
                    (c, Some(v))
                },
            }
        },
        None => (ctx1, None),
    };
    let ghost pos_grown = feed.pos;
    let ghost final_ph_view: Option<Seq<(Seq<char>, EntryV)>> = match final_ph {
        Some(ref v) => Some(entry_pairs_view(v@)),
        None => None,
    };
    proof {
        assert(growth_ok(old_data@, old_config@, silent, answers, pos_mid as int, working_view));
        assert(grown_values(
            old_data@,
            old_config@,
            silent,
            answers,
            pos_mid as int,
            working_view,
            final_ph_view,
        ));
        assert(pos_grown as int == growth_end(
            old_data@,
            old_config@,
            silent,
            answers,
            pos_mid as int,
            working_view,
        ));
        assert(update_flow_ok(
            old_data@,
            old_config@,
            new_config@,
            silent,
            answers,
            pos0,
            working_view,
            final_ph_view,
        ));
        assert(match (working_view, final_ph_view) {
            (Some(w), Some(f)) => ctx2@ == refresh_ctx(
                w,
                f,
                placeholder_map(old_data@),
                merge_ctx(w, placeholder_map(old_data@), Seq::empty()),
            ),
            _ => ctx2@ == Seq::<(Seq<char>, CtxValueV)>::empty(),
        });
        if silent && old_config@.placeholders == new_config@.placeholders {
            assert(final_ph_view == working_view);
        }
    }
    let overwrite: bool = if silent {
        false
    } else {
        match next_confirm(feed) {
            Err(e) => {
                proof {
                    assert(confirm_at(answers, pos_grown as int) is None);
                    assert(update_prompt_unanswered(
                        old_data@,
                        old_config@,
                        new_config@,
                        silent,
                        answers,
                        pos0,
                        working_view,
                    ));
                }
                return Err(UpdateError::Prompt(e));
            },
            Ok(b) => {
                proof {
                    assert(confirm_at(answers, pos_grown as int) == Some((b, pos_grown + 1)));
                }
                b
            },
        }
    };
    let (ctx3, actions): (Context, Vec<FileAction>) = match &new_config.supporting_files {
        Some(files) => add_files_as_vars(
            files,
            ctx2,
            home_path,
            path_to_module,
            home_path,
            overwrite,
        ),
        None => {
            let empty_actions: Vec<FileAction> = Vec::new();
            proof {
                assert(empty_actions.deep_view() =~= Seq::<crate::template::FileActionV>::empty());
            }
            (ctx2, empty_actions)
        },
    };
    proof {
        assert(ctx3@ == update_ctx_model(
            new_config@,
            home_path@,
            placeholder_map(old_data@),
            working_view,
            final_ph_view,
        ));
    }
    let commit: bool = if silent {
        true
    } else {
        match next_confirm(feed) {
            Err(e) => {
                proof {
                    assert(confirm_at(answers, pos_grown as int) is Some);
                    assert(confirm_at(answers, pos_grown + 1) is None);
                    assert(update_prompt_unanswered(
                        old_data@,
                        old_config@,
                        new_config@,
                        silent,
                        answers,
                        pos0,
                        working_view,
                    ));
                }
                return Err(UpdateError::Prompt(e));
            },
            Ok(b) => {
                proof {
                    assert(confirm_at(answers, pos_grown + 1) == Some((b, pos_grown + 2)));
                }
                b
            },
        }
    };
    if !commit {
        proof {
            assert(update_flow_ok(
                old_data@,
                old_config@,
                new_config@,
                silent,
                answers,
                pos0,
                working_view,
                final_ph_view,
            ));
        }
        return Ok(UpdateOutcome::Declined);
    }
    let build = match build_command(&new_config.plugin_info.plugin_type, path_to_module) {
        Err(_) => {
            proof {
                assert(update_flow_ok(
                    old_data@,
                    old_config@,
                    new_config@,
                    silent,
                    answers,
                    pos0,
                    working_view,
                    final_ph_view,
                ));
            }
            return Err(UpdateError::BadPackage);
        },
        Ok(b) => b,
    };
    let data = PluginInfo {
        plugin_info: new_config.plugin_info.clone(),
        placeholders: final_ph,
        supporting_files: match &old_data.supporting_files {
            Some(fs) => Some(clone_file_pairs(fs)),
            None => None,
        },
    };
    proof {
        assert(data@.placeholders == final_ph_view);
        assert(update_flow_ok(
            old_data@,
            old_config@,
            new_config@,
            silent,
            answers,
            pos0,
            working_view,
            data@.placeholders,
        ));
    }
    Ok(
        UpdateOutcome::Committed(
            UpdateCommit {
                data,
                context: ctx3,
                file_actions: actions,
                overwrite_files: overwrite,
                build,
            },
        ),
    )
}

/// Without reconciliation the collection pass leaves the context alone: every
/// key already stands in the prior record.
proof fn lemma_merge_ctx_all_prior(
    w: Seq<(Seq<char>, EntryV)>,
    old_map: Seq<(Seq<char>, EntryV)>,
    ctx: Seq<(Seq<char>, CtxValueV)>,
)
    requires
        forall|idx: int| 0 <= idx < w.len() ==> assoc_has(old_map, (#[trigger] w[idx]).0),
    ensures
        merge_ctx(w, old_map, ctx) == ctx,
    decreases w.len(),
{
    if w.len() > 0 {
        assert(assoc_has(old_map, w[0].0));
        assert forall|idx: int| 0 <= idx < w.drop_first().len() implies assoc_has(
            old_map,
            (#[trigger] w.drop_first()[idx]).0,
        ) by {
            assert(w.drop_first()[idx] == w[idx + 1]);
        }
        lemma_merge_ctx_all_prior(w.drop_first(), old_map, ctx);
    }
}

pub open spec fn config_plugin_type(p: crate::models::PluginInfoV) -> crate::models::PluginTypeV {
    p.plugin_info.plugin_type
}

/// A value found under a key among entries whose lists are all non-empty has
/// non-empty lists itself.
proof fn lemma_assoc_get_nonempty_arrays(s: Seq<(Seq<char>, EntryV)>, k: Seq<char>)
    requires
        forall|idx: int| 0 <= idx < s.len() ==> arrays_nonempty((#[trigger] s[idx]).1),
    ensures
        match assoc_get(s, k) {
            Some(v) => arrays_nonempty(v),
            None => true,
        },
    decreases s.len(),
{
    if s.len() > 0 {
        assert(arrays_nonempty(s[0].1));
        if s[0].0 != k {
            assert forall|idx: int| 0 <= idx < s.drop_first().len() implies arrays_nonempty(
                (#[trigger] s.drop_first()[idx]).1,
            ) by {
                assert(s.drop_first()[idx] == s[idx + 1]);
            }
            lemma_assoc_get_nonempty_arrays(s.drop_first(), k);
        }
    }
}

/// Concatenating entry lists concatenates their views.
proof fn lemma_entries_view_concat(a: Seq<EntryType>, b: Seq<EntryType>)
    ensures
        entries_view(a + b) == entries_view(a) + entries_view(b),
{
    lemma_entries_view_len(a);
    lemma_entries_view_len(b);
    lemma_entries_view_len(a + b);
    assert(entries_view(a + b) =~= entries_view(a) + entries_view(b));
}

} // verus!
