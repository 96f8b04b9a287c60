use vstd::prelude::*;

use crate::models::{assoc_get, entries_view, entry_pairs_view, EntryType, EntryV};

verus! {

// ---------------------------------------------------------------------------
// The interactive value collector.
//
// Resolving a placeholder walks its prototype tree and asks the operator for
// every scalar, and, for every list, whether another element should be added.
// The answers arrive through an `AnswerFeed`: a recorded sequence of texts
// and confirmations, one per prompt, in prompt order.  The caller that talks
// to a terminal collects one answer at a time (the collector says through its
// errors when the feed ran dry).  Resolution itself — which prompts happen,
// in which order, and what tree and rendering context they produce — is all
// verified here.
// ---------------------------------------------------------------------------

pub enum Answer {
    Text(String),
    Confirm(bool),
}

#[verifier::ext_equal]
pub enum AnswerV {
    Text(Seq<char>),
    Confirm(bool),
}

impl View for Answer {
    type V = AnswerV;

    open spec fn view(&self) -> AnswerV {
        match self {
            Answer::Text(s) => AnswerV::Text(s@),
            Answer::Confirm(b) => AnswerV::Confirm(*b),
        }
    }
}

impl DeepView for Answer {
    type V = AnswerV;

    open spec fn deep_view(&self) -> AnswerV {
        self.view()
    }
}

/// A recorded sequence of prompt answers and the position of the next unread
/// one.
pub struct AnswerFeed {
    pub answers: Vec<Answer>,
    pub pos: usize,
}

/// A resolution fails only when a prompt goes unanswered: the feed ran dry or
/// holds an answer of the wrong kind at the position of the prompt.
#[derive(PartialEq, Eq, Structural, Clone, Copy, Debug)]
pub enum CollectError {
    Cancelled,
}

// ---------------------------------------------------------------------------
// The rendering context: an ordered key/value store where a later insertion
// of an existing key replaces the earlier value in place.
// ---------------------------------------------------------------------------

pub enum CtxValue {
    Str(String),
    Tree(EntryType),
}

#[verifier::ext_equal]
pub enum CtxValueV {
    Str(Seq<char>),
    Tree(EntryV),
}

impl View for CtxValue {
    type V = CtxValueV;

    open spec fn view(&self) -> CtxValueV {
        match self {
            CtxValue::Str(s) => CtxValueV::Str(s@),
            CtxValue::Tree(e) => CtxValueV::Tree(e@),
        }
    }
}

pub struct Context {
    pub entries: Vec<(String, CtxValue)>,
}

pub open spec fn ctx_pairs_view(s: Seq<(String, CtxValue)>) -> Seq<(Seq<char>, CtxValueV)>
    decreases s,
{
    if s.len() == 0 {
        Seq::empty()
    } else {
        seq![(s[0].0@, s[0].1@)] + ctx_pairs_view(s.drop_first())
    }
}

pub broadcast proof fn lemma_ctx_pairs_view_len(s: Seq<(String, CtxValue)>)
    ensures
        (#[trigger] ctx_pairs_view(s)).len() == s.len(),
        forall|i: int| 0 <= i < s.len() ==> #[trigger] ctx_pairs_view(s)[i] == (s[i].0@, s[i].1@),
    decreases s,
{
    if s.len() > 0 {
        lemma_ctx_pairs_view_len(s.drop_first());
        assert(ctx_pairs_view(s) == seq![(s[0].0@, s[0].1@)] + ctx_pairs_view(s.drop_first()));
        assert forall|i: int| 0 <= i < s.len() implies #[trigger] ctx_pairs_view(s)[i] == (
        s[i].0@,
        s[i].1@,
        ) by {
            if i > 0 {
                assert(ctx_pairs_view(s)[i] == ctx_pairs_view(s.drop_first())[i - 1]);
                assert(s.drop_first()[i - 1] == s[i]);
            }
        }
    }
}

impl View for Context {
    type V = Seq<(Seq<char>, CtxValueV)>;

    open spec fn view(&self) -> Seq<(Seq<char>, CtxValueV)> {
        ctx_pairs_view(self.entries@)
    }
}

/// Insertion replaces the first entry with the key, in place, or appends.
pub open spec fn ctx_insert(m: Seq<(Seq<char>, CtxValueV)>, k: Seq<char>, v: CtxValueV) -> Seq<
    (Seq<char>, CtxValueV),
>
    decreases m.len(),
{
    if m.len() == 0 {
        seq![(k, v)]
    } else if m[0].0 == k {
        seq![(k, v)] + m.drop_first()
    } else {
        seq![m[0]] + ctx_insert(m.drop_first(), k, v)
    }
}

/// What a lookup finds after an insertion.
pub proof fn lemma_ctx_insert_get(m: Seq<(Seq<char>, CtxValueV)>, k: Seq<char>, v: CtxValueV, q: Seq<
    char,
>)
    ensures
        assoc_get(ctx_insert(m, k, v), q) == if q == k {
            Some(v)
        } else {
            assoc_get(m, q)
        },
    decreases m.len(),
{
    if m.len() == 0 {
        assert(seq![(k, v)].drop_first() =~= Seq::<(Seq<char>, CtxValueV)>::empty());
        assert(ctx_insert(m, k, v) == seq![(k, v)]);
        assert(assoc_get(seq![(k, v)], q) == if q == k {
            Some(v)
        } else {
            assoc_get(seq![(k, v)].drop_first(), q)
        });
    } else if m[0].0 == k {
        let r = seq![(k, v)] + m.drop_first();
        assert(r.drop_first() =~= m.drop_first());
        assert(r[0] == (k, v));
        assert(assoc_get(r, q) == if q == k {
            Some(v)
        } else {
            assoc_get(m.drop_first(), q)
        });
    } else {
        lemma_ctx_insert_get(m.drop_first(), k, v, q);
        let r = seq![m[0]] + ctx_insert(m.drop_first(), k, v);
        assert(r.drop_first() =~= ctx_insert(m.drop_first(), k, v));
        assert(r[0] == m[0]);
        assert(r.len() > 0);
        assert(assoc_get(r, q) == if r[0].0 == q {
            Some(r[0].1)
        } else {
            assoc_get(r.drop_first(), q)
        });
    }
}

impl Context {
    pub fn new() -> (r: Context)
        ensures
            r@ == Seq::<(Seq<char>, CtxValueV)>::empty(),
    {
        let c = Context { entries: Vec::new() };
        proof {
            assert(c@ =~= Seq::<(Seq<char>, CtxValueV)>::empty());
        }
        c
    }

    /// Insert a value under a key, replacing the first entry with that key.
    #[verifier::loop_isolation(false)]
    pub fn insert(&mut self, key: String, value: CtxValue)
        ensures
            final(self)@ == ctx_insert(old(self)@, key@, value@),
    {
        proof {
            lemma_ctx_pairs_view_len(self.entries@);
        }
        let mut i: usize = 0;
        while i < self.entries.len()
            invariant
                i <= self.entries@.len(),
                forall|j: int| 0 <= j < i ==> (#[trigger] self.entries@[j]).0@ != key@,
                self.entries@ == old(self).entries@,
            decreases self.entries@.len() - i,
        {
            if self.entries[i].0 == key {
                self.entries.set(i, (key, value));
                proof {
                    lemma_ctx_pairs_view_len(self.entries@);
                    lemma_ctx_insert_prefix(old(self).entries@, self.entries@, i as int);
                }
                return ;
            }
            i += 1;
        }
        self.entries.push((key, value));
        proof {
            lemma_ctx_pairs_view_len(self.entries@);
            lemma_ctx_insert_append(old(self).entries@, self.entries@);
        }
    }
}

/// Replacing the first match in place realizes `ctx_insert`.
proof fn lemma_ctx_insert_prefix(
    before: Seq<(String, CtxValue)>,
    after: Seq<(String, CtxValue)>,
    i: int,
)
    requires
        0 <= i < before.len(),
        after.len() == before.len(),
        forall|j: int| 0 <= j < i ==> (#[trigger] before[j]).0@ != before[i].0@,
        forall|j: int| 0 <= j < before.len() && j != i ==> after[j] == before[j],
        after[i].0@ == before[i].0@,
    ensures
        ctx_pairs_view(after) == ctx_insert(ctx_pairs_view(before), after[i].0@, after[i].1@),
    decreases i,
{
    lemma_ctx_pairs_view_len(before);
    lemma_ctx_pairs_view_len(after);
    if i == 0 {
        assert(ctx_pairs_view(after) =~= seq![(after[0].0@, after[0].1@)] + ctx_pairs_view(
            before,
        ).drop_first());
    } else {
        lemma_ctx_insert_prefix(before.drop_first(), after.drop_first(), i - 1);
        lemma_ctx_pairs_view_len(before.drop_first());
        lemma_ctx_pairs_view_len(after.drop_first());
        assert(ctx_pairs_view(before).drop_first() =~= ctx_pairs_view(before.drop_first()));
        assert(ctx_pairs_view(after).drop_first() =~= ctx_pairs_view(after.drop_first()));
        assert(after.drop_first()[i - 1] == after[i]);
        assert(ctx_pairs_view(after) =~= seq![ctx_pairs_view(before)[0]] + ctx_insert(
            ctx_pairs_view(before).drop_first(),
            after[i].0@,
            after[i].1@,
        ));
    }
}

/// Appending a fresh key realizes `ctx_insert`.
proof fn lemma_ctx_insert_append(before: Seq<(String, CtxValue)>, after: Seq<(String, CtxValue)>)
    requires
        after.len() == before.len() + 1,
        forall|j: int| 0 <= j < before.len() ==> after[j] == before[j],
        forall|j: int| 0 <= j < before.len() ==> (#[trigger] before[j]).0@ != after[before.len() as int].0@,
    ensures
        ctx_pairs_view(after) == ctx_insert(
            ctx_pairs_view(before),
            after[before.len() as int].0@,
            after[before.len() as int].1@,
        ),
    decreases before.len(),
{
    lemma_ctx_pairs_view_len(before);
    lemma_ctx_pairs_view_len(after);
    if before.len() == 0 {
        assert(ctx_pairs_view(after) =~= seq![(after[0].0@, after[0].1@)]);
    } else {
        lemma_ctx_insert_append(before.drop_first(), after.drop_first());
        lemma_ctx_pairs_view_len(before.drop_first());
        lemma_ctx_pairs_view_len(after.drop_first());
        assert(after.drop_first()[before.len() - 1] == after[before.len() as int]);
        assert(ctx_pairs_view(before).drop_first() =~= ctx_pairs_view(before.drop_first()));
        assert(ctx_pairs_view(after).drop_first() =~= ctx_pairs_view(after.drop_first()));
        assert(ctx_pairs_view(after) =~= seq![ctx_pairs_view(before)[0]] + ctx_insert(
            ctx_pairs_view(before).drop_first(),
            after[before.len() as int].0@,
            after[before.len() as int].1@,
        ));
    }
}

/// An insertion never removes a key: whatever was found before is still
/// found, and the inserted key is found.
pub proof fn lemma_ctx_insert_preserves(
    m: Seq<(Seq<char>, CtxValueV)>,
    k: Seq<char>,
    v: CtxValueV,
    q: Seq<char>,
)
    requires
        q == k || assoc_get(m, q) is Some,
    ensures
        assoc_get(ctx_insert(m, k, v), q) is Some,
{
    lemma_ctx_insert_get(m, k, v, q);
}

/// Resolution effects only add to the context: a key found before a
/// resolution is still found after it.
pub proof fn lemma_ctx_after_read_preserves(
    key: Seq<char>,
    resolved: EntryV,
    ctx: Seq<(Seq<char>, CtxValueV)>,
    q: Seq<char>,
)
    requires
        assoc_get(ctx, q) is Some,
    ensures
        assoc_get(ctx_after_read(key, resolved, ctx), q) is Some,
    decreases resolved, 0int,
{
    match resolved {
        EntryV::Value(s) => {
            lemma_ctx_insert_preserves(ctx, key, CtxValueV::Str(s), q);
        },
        EntryV::Object(fields) => {
            lemma_ctx_after_fields_preserves(fields, ctx, q);
        },
        EntryV::Array(items) => {
            lemma_ctx_after_items_preserves(key, items, ctx, q);
            lemma_ctx_insert_preserves(
                ctx_after_items(key, items, ctx),
                key + "_shortNames"@,
                CtxValueV::Str(short_names_of(items)),
                q,
            );
        },
    }
}

pub proof fn lemma_ctx_after_fields_preserves(
    fields: Seq<(Seq<char>, EntryV)>,
    ctx: Seq<(Seq<char>, CtxValueV)>,
    q: Seq<char>,
)
    requires
        assoc_get(ctx, q) is Some,
    ensures
        assoc_get(ctx_after_fields(fields, ctx), q) is Some,
    decreases fields, 1int,
{
    if fields.len() > 0 {
        lemma_ctx_after_read_preserves(fields[0].0, fields[0].1, ctx, q);
        lemma_ctx_after_fields_preserves(
            fields.drop_first(),
            ctx_after_read(fields[0].0, fields[0].1, ctx),
            q,
        );
    }
}

pub proof fn lemma_ctx_after_items_preserves(
    key: Seq<char>,
    items: Seq<EntryV>,
    ctx: Seq<(Seq<char>, CtxValueV)>,
    q: Seq<char>,
)
    requires
        assoc_get(ctx, q) is Some,
    ensures
        assoc_get(ctx_after_items(key, items, ctx), q) is Some,
    decreases items, 1int,
{
    if items.len() > 0 {
        lemma_ctx_after_read_preserves(key, items[0], ctx, q);
        lemma_ctx_after_items_preserves(
            key,
            items.drop_first(),
            ctx_after_read(key, items[0], ctx),
            q,
        );
    }
}

// ---------------------------------------------------------------------------
// Tilde expansion of collected paths.
// ---------------------------------------------------------------------------

pub open spec fn no_tilde(s: Seq<char>) -> bool {
    s.len() == 0 || s[0] != '~'
}

/// Relies on `shellexpand::tilde`: a text that does not begin with `~` comes
/// back unchanged; one that does is expanded with the machine's home
/// directory where it is available, so nothing more is promised of it.
#[verifier::external_body]
fn tilde(s: &str) -> (r: String)
    ensures
        no_tilde(s@) ==> r@ == s@,
{
    shellexpand::tilde(s).to_string()
}

// ---------------------------------------------------------------------------
// The model of a resolution: which answers are consumed and what tree comes
// out, with collected texts taken as the operator typed them.  The payload
// of a freshly answered scalar additionally passes through tilde expansion,
// which the relation `expanded_from` captures: expansion only touches texts
// that begin with `~`.
// ---------------------------------------------------------------------------

pub open spec fn chosen_of(default: Seq<char>, t: Seq<char>) -> Seq<char> {
    if t.len() == 0 {
        default
    } else {
        t
    }
}

/// Every list in a prototype carries its first element as the shape for new
/// elements; a prototype with an empty list has no shape to offer and is
/// rejected before resolution starts.
pub open spec fn arrays_nonempty(e: EntryV) -> bool
    decreases e,
{
    match e {
        EntryV::Value(_) => true,
        EntryV::Object(fields) => forall|i: int|
            0 <= i < fields.len() ==> arrays_nonempty((#[trigger] fields[i]).1),
        EntryV::Array(items) => items.len() > 0 && forall|i: int|
            0 <= i < items.len() ==> arrays_nonempty(#[trigger] items[i]),
    }
}

proof fn lemma_object_elem_nonempty(fields: Seq<(Seq<char>, EntryV)>, i: int)
    requires
        0 <= i < fields.len(),
        arrays_nonempty(EntryV::Object(fields)),
    ensures
        arrays_nonempty(fields[i].1),
{
    let x = EntryV::Object(fields);
    assert(arrays_nonempty(x));
    assert(x->Object_0 == fields);
    assert(arrays_nonempty(fields[i].1));
}

proof fn lemma_array_elem_nonempty(items: Seq<EntryV>, i: int)
    requires
        0 <= i < items.len(),
        arrays_nonempty(EntryV::Array(items)),
    ensures
        arrays_nonempty(items[i]),
{
    let x = EntryV::Array(items);
    assert(arrays_nonempty(x));
    assert(x->Array_0 == items);
    assert(arrays_nonempty(items[i]));
}

/// Whether every list of a prototype offers a first element as its shape.
#[verifier::loop_isolation(false)]
pub fn check_arrays_nonempty(e: &EntryType) -> (r: bool)
    ensures
        r == arrays_nonempty(e@),
    decreases e,
{
    match e {
        EntryType::Value(_) => true,
        EntryType::Object(fields) => {
            proof {
                crate::models::lemma_entry_pairs_view_len(fields@);
            }
            let mut i: usize = 0;
            while i < fields.len()
                invariant
                    i <= fields@.len(),
                    forall|j: int|
                        0 <= j < i ==> arrays_nonempty(
                            (#[trigger] entry_pairs_view(fields@)[j]).1,
                        ),
                decreases fields@.len() - i,
            {
                proof {
                    assert(decreases_to!(*e => *fields));
                    assert(decreases_to!(*fields => fields@[i as int]));
                    assert(decreases_to!(fields@[i as int] => fields@[i as int].1));
                }
                if !check_arrays_nonempty(&fields[i].1) {
                    proof {
                        assert(e@ == EntryV::Object(entry_pairs_view(fields@)));
                        assert(!arrays_nonempty(
                            (entry_pairs_view(fields@)[i as int]).1,
                        ));
                        assert(0 <= i < entry_pairs_view(fields@).len());
                        if arrays_nonempty(e@) {
                            lemma_object_elem_nonempty(entry_pairs_view(fields@), i as int);
                        }
                        assert(!arrays_nonempty(e@));
                    }
                    return false;
                }
                i += 1;
            }
            proof {
                assert(e@ == EntryV::Object(entry_pairs_view(fields@)));
            }
            true
        },
        EntryType::Array(items) => {
            proof {
                crate::models::lemma_entries_view_len(items@);
            }
            if items.len() == 0 {
                return false;
            }
            let mut i: usize = 0;
            while i < items.len()
                invariant
                    i <= items@.len(),
                    forall|j: int|
                        0 <= j < i ==> arrays_nonempty(#[trigger] entries_view(items@)[j]),
                decreases items@.len() - i,
            {
                proof {
                    assert(decreases_to!(*e => *items));
                    assert(decreases_to!(*items => items@[i as int]));
                }
                if !check_arrays_nonempty(&items[i]) {
                    proof {
                        assert(e@ == EntryV::Array(entries_view(items@)));
                        assert(!arrays_nonempty(entries_view(items@)[i as int]));
                        assert(0 <= i < entries_view(items@).len());
                        if arrays_nonempty(e@) {
                            lemma_array_elem_nonempty(entries_view(items@), i as int);
                        }
                        assert(!arrays_nonempty(e@));
                    }
                    return false;
                }
                i += 1;
            }
            proof {
                assert(e@ == EntryV::Array(entries_view(items@)));
            }
            true
        },
    }
}

pub open spec fn spec_read(proto: EntryV, answers: Seq<AnswerV>, i: int) -> Option<(EntryV, int)>
    decreases answers.len() - i, proto, 0int,
{
    match proto {
        EntryV::Value(default) => {
            if 0 <= i < answers.len() && answers[i] is Text {
                Some((EntryV::Value(chosen_of(default, answers[i]->Text_0)), i + 1))
            } else {
                None
            }
        },
        EntryV::Object(fields) => {
            match spec_read_fields(fields, answers, i) {
                None => None,
                Some((resolved, j)) => Some((EntryV::Object(resolved), j)),
            }
        },
        EntryV::Array(items) => {
            if items.len() == 0 {
                None
            } else {
                match spec_read_items(items[0], answers, i) {
                    None => None,
                    Some((resolved, j)) => Some((EntryV::Array(resolved), j)),
                }
            }
        },
    }
}

pub open spec fn spec_read_fields(
    fields: Seq<(Seq<char>, EntryV)>,
    answers: Seq<AnswerV>,
    i: int,
) -> Option<(Seq<(Seq<char>, EntryV)>, int)>
    decreases answers.len() - i, fields, 1int,
{
    if fields.len() == 0 {
        Some((Seq::empty(), i))
    } else {
        match spec_read(fields[0].1, answers, i) {
            None => None,
            Some((v, j)) => if i <= j <= answers.len() {
                match spec_read_fields(fields.drop_first(), answers, j) {
                    None => None,
                    Some((rest, j2)) => Some((seq![(fields[0].0, v)] + rest, j2)),
                }
            } else {
                None
            },
        }
    }
}

/// One list element is resolved from the prototype, then a confirmation asks
/// for another; an affirmative answer repeats, a negative one ends the list,
/// and a confirmation that goes unanswered cancels the resolution.
pub open spec fn spec_read_items(proto: EntryV, answers: Seq<AnswerV>, i: int) -> Option<
    (Seq<EntryV>, int),
>
    decreases answers.len() - i, proto, 1int,
{
    match spec_read(proto, answers, i) {
        None => None,
        Some((v, j)) => if i <= j <= answers.len() {
            if 0 <= j < answers.len() && answers[j] is Confirm {
                if answers[j]->Confirm_0 {
                    if j + 1 > i {
                        match spec_read_items(proto, answers, j + 1) {
                            None => None,
                            Some((rest, j2)) => Some((seq![v] + rest, j2)),
                        }
                    } else {
                        None
                    }
                } else {
                    Some((seq![v], j + 1))
                }
            } else {
                None
            }
        } else {
            None
        },
    }
}

// ---------------------------------------------------------------------------
// The expansion relation: the tree the collector returns matches the model
// tree exactly, except that a scalar whose collected text begins with `~` may
// have been expanded.
// ---------------------------------------------------------------------------

pub open spec fn expanded_from(m: EntryV, a: EntryV) -> bool
    decreases m,
{
    match (m, a) {
        (EntryV::Value(mc), EntryV::Value(ac)) => no_tilde(mc) ==> ac == mc,
        (EntryV::Object(mf), EntryV::Object(af)) => mf.len() == af.len() && forall|k: int|
            0 <= k < mf.len() ==> (#[trigger] af[k]).0 == mf[k].0 && expanded_from(
                mf[k].1,
                af[k].1,
            ),
        (EntryV::Array(mi), EntryV::Array(ai)) => mi.len() == ai.len() && forall|k: int|
            0 <= k < mi.len() ==> expanded_from(#[trigger] mi[k], ai[k]),
        _ => false,
    }
}

// ---------------------------------------------------------------------------
// Derived short names.
// ---------------------------------------------------------------------------

pub open spec fn short_name_of(e: EntryV) -> Option<Seq<char>> {
    match e {
        EntryV::Object(fields) => match assoc_get(fields, "shortName"@) {
            Some(EntryV::Value(s)) => Some(s),
            _ => None,
        },
        _ => None,
    }
}

pub open spec fn short_name_list(items: Seq<EntryV>) -> Seq<Seq<char>>
    decreases items.len(),
{
    if items.len() == 0 {
        Seq::empty()
    } else {
        (match short_name_of(items[0]) {
            Some(s) => seq![s],
            None => Seq::<Seq<char>>::empty(),
        }) + short_name_list(items.drop_first())
    }
}

pub open spec fn join_space(parts: Seq<Seq<char>>) -> Seq<char>
    decreases parts.len(),
{
    if parts.len() == 0 {
        Seq::empty()
    } else if parts.len() == 1 {
        parts[0]
    } else {
        parts[0] + seq![' '] + join_space(parts.drop_first())
    }
}

/// The derived summary of a list: the space-joined `shortName` scalar of each
/// element that has one, in list order.
pub open spec fn short_names_of(items: Seq<EntryV>) -> Seq<char> {
    join_space(short_name_list(items))
}

// ---------------------------------------------------------------------------
// What a resolution adds to the rendering context, as a function of the tree
// it returned: every resolved scalar under its key, and for every list a
// derived `<key>_shortNames` summary.
// ---------------------------------------------------------------------------

pub open spec fn ctx_after_read(
    key: Seq<char>,
    resolved: EntryV,
    ctx: Seq<(Seq<char>, CtxValueV)>,
) -> Seq<(Seq<char>, CtxValueV)>
    decreases resolved,
{
    match resolved {
        EntryV::Value(s) => ctx_insert(ctx, key, CtxValueV::Str(s)),
        EntryV::Object(fields) => ctx_after_fields(fields, ctx),
        EntryV::Array(items) => ctx_insert(
            ctx_after_items(key, items, ctx),
            key + "_shortNames"@,
            CtxValueV::Str(short_names_of(items)),
        ),
    }
}

pub open spec fn ctx_after_fields(
    fields: Seq<(Seq<char>, EntryV)>,
    ctx: Seq<(Seq<char>, CtxValueV)>,
) -> Seq<(Seq<char>, CtxValueV)>
    decreases fields,
{
    if fields.len() == 0 {
        ctx
    } else {
        ctx_after_fields(fields.drop_first(), ctx_after_read(fields[0].0, fields[0].1, ctx))
    }
}

pub open spec fn ctx_after_items(
    key: Seq<char>,
    items: Seq<EntryV>,
    ctx: Seq<(Seq<char>, CtxValueV)>,
) -> Seq<(Seq<char>, CtxValueV)>
    decreases items,
{
    if items.len() == 0 {
        ctx
    } else {
        ctx_after_items(key, items.drop_first(), ctx_after_read(key, items[0], ctx))
    }
}

proof fn lemma_ctx_after_fields_snoc(
    a: Seq<(Seq<char>, EntryV)>,
    x: (Seq<char>, EntryV),
    ctx: Seq<(Seq<char>, CtxValueV)>,
)
    ensures
        ctx_after_fields(a + seq![x], ctx) == ctx_after_read(x.0, x.1, ctx_after_fields(a, ctx)),
    decreases a,
{
    if a.len() == 0 {
        assert(a + seq![x] =~= seq![x]);
        assert(seq![x][0] == x);
        assert(ctx_after_fields(seq![x], ctx) == ctx_after_fields(
            seq![x].drop_first(),
            ctx_after_read(x.0, x.1, ctx),
        ));
        assert(seq![x].drop_first() =~= Seq::<(Seq<char>, EntryV)>::empty());
        assert(ctx_after_fields(seq![x].drop_first(), ctx_after_read(x.0, x.1, ctx))
            == ctx_after_read(x.0, x.1, ctx));
    } else {
        assert((a + seq![x]).drop_first() =~= a.drop_first() + seq![x]);
        assert((a + seq![x])[0] == a[0]);
        assert(ctx_after_fields(a + seq![x], ctx) == ctx_after_fields(
            (a + seq![x]).drop_first(),
            ctx_after_read(a[0].0, a[0].1, ctx),
        ));
        lemma_ctx_after_fields_snoc(a.drop_first(), x, ctx_after_read(a[0].0, a[0].1, ctx));
    }
}

proof fn lemma_ctx_after_items_snoc(
    key: Seq<char>,
    a: Seq<EntryV>,
    x: EntryV,
    ctx: Seq<(Seq<char>, CtxValueV)>,
)
    ensures
        ctx_after_items(key, a + seq![x], ctx) == ctx_after_read(key, x, ctx_after_items(key, a, ctx)),
    decreases a,
{
    if a.len() == 0 {
        assert(a + seq![x] =~= seq![x]);
        assert(seq![x][0] == x);
        assert(ctx_after_items(key, seq![x], ctx) == ctx_after_items(
            key,
            seq![x].drop_first(),
            ctx_after_read(key, x, ctx),
        ));
        assert(seq![x].drop_first() =~= Seq::<EntryV>::empty());
        assert(ctx_after_items(key, seq![x].drop_first(), ctx_after_read(key, x, ctx))
            == ctx_after_read(key, x, ctx));
    } else {
        assert((a + seq![x]).drop_first() =~= a.drop_first() + seq![x]);
        assert((a + seq![x])[0] == a[0]);
        assert(ctx_after_items(key, a + seq![x], ctx) == ctx_after_items(
            key,
            (a + seq![x]).drop_first(),
            ctx_after_read(key, a[0], ctx),
        ));
        lemma_ctx_after_items_snoc(key, a.drop_first(), x, ctx_after_read(key, a[0], ctx));
    }
}

proof fn lemma_short_name_list_snoc(a: Seq<EntryV>, x: EntryV)
    ensures
        short_name_list(a + seq![x]) == short_name_list(a) + (match short_name_of(x) {
            Some(s) => seq![s],
            None => Seq::<Seq<char>>::empty(),
        }),
    decreases a,
{
    if a.len() == 0 {
        assert(a + seq![x] =~= seq![x]);
        assert(seq![x].drop_first() =~= Seq::<EntryV>::empty());
        assert(short_name_list(seq![x].drop_first()) =~= Seq::<Seq<char>>::empty());
        assert(short_name_list(a + seq![x]) =~= short_name_list(a) + (match short_name_of(x) {
            Some(s) => seq![s],
            None => Seq::<Seq<char>>::empty(),
        }));
    } else {
        assert((a + seq![x]).drop_first() =~= a.drop_first() + seq![x]);
        assert((a + seq![x])[0] == a[0]);
        lemma_short_name_list_snoc(a.drop_first(), x);
        assert(short_name_list(a + seq![x]) =~= short_name_list(a) + (match short_name_of(x) {
            Some(s) => seq![s],
            None => Seq::<Seq<char>>::empty(),
        }));
    }
}

proof fn lemma_join_space_snoc(a: Seq<Seq<char>>, x: Seq<char>)
    ensures
        join_space(a + seq![x]) == if a.len() == 0 {
            x
        } else {
            join_space(a) + seq![' '] + x
        },
    decreases a,
{
    if a.len() == 0 {
        assert(a + seq![x] =~= seq![x]);
        assert(join_space(seq![x]) == seq![x][0]);
    } else if a.len() == 1 {
        assert((a + seq![x]).drop_first() =~= seq![x]);
        assert((a + seq![x])[0] == a[0]);
        assert(join_space(a + seq![x]) == a[0] + seq![' '] + join_space(seq![x]));
        assert(join_space(a) == a[0]);
    } else {
        assert((a + seq![x]).drop_first() =~= a.drop_first() + seq![x]);
        assert((a + seq![x])[0] == a[0]);
        lemma_join_space_snoc(a.drop_first(), x);
        assert(join_space(a + seq![x]) =~= join_space(a) + seq![' '] + x);
    }
}

// ---------------------------------------------------------------------------
// Executable short-name derivation.
// ---------------------------------------------------------------------------

/// The `shortName` scalar of a mapping entry, where it has one.
#[verifier::loop_isolation(false)]
fn find_short_name(e: &EntryType) -> (r: Option<String>)
    ensures
        match r {
            Some(s) => short_name_of(e@) == Some(s@),
            None => short_name_of(e@) is None,
        },
{
    proof {
        reveal_strlit("shortName");
    }
    match e {
        EntryType::Object(fields) => {
            let ghost fv = entry_pairs_view(fields@);
            proof {
                crate::models::lemma_entry_pairs_view_len(fields@);
            }
            let target: String = "shortName".to_owned();
            let mut i: usize = 0;
            while i < fields.len()
                invariant
                    i <= fields@.len(),
                    forall|j: int| 0 <= j < i ==> (#[trigger] fv[j]).0 != "shortName"@,
                decreases fields@.len() - i,
            {
                if fields[i].0 == target {
                    proof {
                        crate::models::lemma_assoc_get_skip(fv, "shortName"@, i as int);
                        assert(fv.skip(i as int)[0] == fv[i as int]);
                        assert(assoc_get(fv.skip(i as int), "shortName"@) == Some(fv[i as int].1));
                    }
                    match &fields[i].1 {
                        EntryType::Value(s) => {
                            return Some(s.clone());
                        },
                        _ => {
                            return None;
                        },
                    }
                }
                i += 1;
            }
            proof {
                crate::models::lemma_assoc_get_skip(fv, "shortName"@, fields@.len() as int);
                assert(fv.skip(fields@.len() as int) =~= Seq::<(Seq<char>, EntryV)>::empty());
            }
            None
        },
        _ => None,
    }
}

/// The space-joined `shortName` of every mapping element that has one, in
/// list order; elements without one are skipped.
#[verifier::loop_isolation(false)]
pub fn get_short_names(array: &[EntryType]) -> (r: String)
    ensures
        r@ == short_names_of(entries_view(array@)),
{
    let ghost av = entries_view(array@);
    proof {
        crate::models::lemma_entries_view_len(array@);
    }
    let mut out = String::new();
    let mut found: bool = false;
    let mut i: usize = 0;
    proof {
        assert(av.take(0) =~= Seq::<EntryV>::empty());
    }
    while i < array.len()
        invariant
            i <= array@.len(),
            found == (short_name_list(av.take(i as int)).len() > 0),
            out@ == join_space(short_name_list(av.take(i as int))),
        decreases array@.len() - i,
    {
        let ghost names_before = short_name_list(av.take(i as int));
        match find_short_name(&array[i]) {
            Some(s) => {
                if found {
                    out.append(" ");
                    proof {
                        reveal_strlit(" ");
                        assert(" "@ =~= seq![' ']);
                    }
                }
                out.append(s.as_str());
                found = true;
            },
            None => {},
        }
        proof {
            assert(av.take(i + 1) =~= av.take(i as int) + seq![av[i as int]]);
            lemma_short_name_list_snoc(av.take(i as int), av[i as int]);
            match short_name_of(av[i as int]) {
                Some(s) => {
                    lemma_join_space_snoc(names_before, s);
                    assert(out@ =~= join_space(short_name_list(av.take(i + 1))));
                },
                None => {
                    assert(short_name_list(av.take(i + 1)) =~= names_before);
                },
            }
        }
        i += 1;
    }
    proof {
        assert(av.take(array@.len() as int) =~= av);
    }
    out
}

// ---------------------------------------------------------------------------
// Executable resolution.
// ---------------------------------------------------------------------------

pub fn sn_key(key: &str) -> (r: String)
    ensures
        r@ == key@ + "_shortNames"@,
{
    let mut s = key.to_owned();
    s.append("_shortNames");
    s
}

/// Resolve a scalar: the next answer's text where it is non-empty, the
/// default otherwise, tilde-expanded either way.
pub fn read_value(key: &str, default: &str, feed: &mut AnswerFeed) -> (r: Result<
    EntryType,
    CollectError,
>)
    requires
        old(feed).pos <= old(feed).answers@.len(),
    ensures
        final(feed).answers.deep_view() == old(feed).answers.deep_view(),
        old(feed).pos <= final(feed).pos <= final(feed).answers@.len(),
        match r {
            Ok(e) => ({
                let m = spec_read(
                    EntryV::Value(default@),
                    old(feed).answers.deep_view(),
                    old(feed).pos as int,
                );
                &&& m is Some
                &&& final(feed).pos as int == m->Some_0.1
                &&& expanded_from(m->Some_0.0, e@)
            }),
            Err(_) => spec_read(
                EntryV::Value(default@),
                old(feed).answers.deep_view(),
                old(feed).pos as int,
            ) is None,
        },
{
    proof {
        assert(old(feed).answers.deep_view().len() == old(feed).answers@.len());
    }
    if feed.pos >= feed.answers.len() {
        return Err(CollectError::Cancelled);
    }
    let is_text: bool = match &feed.answers[feed.pos] {
        Answer::Text(_) => true,
        _ => false,
    };
    if !is_text {
        return Err(CollectError::Cancelled);
    }
    let t: String = match &feed.answers[feed.pos] {
        Answer::Text(s) => s.clone(),
        _ => String::new(),
    };
    feed.pos = feed.pos + 1;
    let chosen: &str = if !t.as_str().is_empty() {
        t.as_str()
    } else {
        default
    };
    proof {
        assert(t@.len() == 0 ==> chosen@ == chosen_of(default@, t@));
        assert(t@.len() > 0 ==> chosen@ == chosen_of(default@, t@));
    }
    let expanded = tilde(chosen);
    Ok(EntryType::Value(expanded))
}

/// Resolve every field of a mapping, in insertion order, each under its own
/// key.
#[verifier::loop_isolation(false)]
pub fn read_object(obj: &Vec<(String, EntryType)>, map_builder: Context, feed: &mut AnswerFeed) -> (r:
    Result<(Context, EntryType), CollectError>)
    requires
        old(feed).pos <= old(feed).answers@.len(),
        forall|k: int|
            0 <= k < entry_pairs_view(obj@).len() ==> arrays_nonempty(
                (#[trigger] entry_pairs_view(obj@)[k]).1,
            ),
    ensures
        final(feed).answers.deep_view() == old(feed).answers.deep_view(),
        old(feed).pos <= final(feed).pos <= final(feed).answers@.len(),
        match r {
            Ok(p) => ({
                let m = spec_read_fields(
                    entry_pairs_view(obj@),
                    old(feed).answers.deep_view(),
                    old(feed).pos as int,
                );
                &&& m is Some
                &&& final(feed).pos as int == m->Some_0.1
                &&& expanded_from(EntryV::Object(m->Some_0.0), p.1@)
                &&& (p.1@ matches EntryV::Object(af) && p.0@ == ctx_after_fields(
                    af,
                    map_builder@,
                ))
            }),
            Err(_) => spec_read_fields(
                entry_pairs_view(obj@),
                old(feed).answers.deep_view(),
                old(feed).pos as int,
            ) is None,
        },
    decreases obj, 1int,
{
    let ghost ov = entry_pairs_view(obj@);
    let ghost answers = old(feed).answers.deep_view();
    proof {
        crate::models::lemma_entry_pairs_view_len(obj@);
    }
    let mut ctx = map_builder;
    let mut out: Vec<(String, EntryType)> = Vec::new();
    let mut i: usize = 0;
    proof {
        assert(ov.take(0) =~= Seq::<(Seq<char>, EntryV)>::empty());
        assert(entry_pairs_view(out@) =~= Seq::<(Seq<char>, EntryV)>::empty());
        crate::models::lemma_entry_pairs_view_len(out@);
        assert(ov.skip(0) =~= ov);
        if spec_read_fields(ov, answers, old(feed).pos as int) is Some {
            let whole = spec_read_fields(ov, answers, old(feed).pos as int)->Some_0.0;
            assert(whole.skip(0) =~= whole);
        }
    }
    loop
        invariant
            i <= obj@.len(),
            feed.answers.deep_view() == answers,
            old(feed).pos <= feed.pos <= feed.answers@.len(),
            out@.len() == i,
            forall|k: int| 0 <= k < i ==> (#[trigger] entry_pairs_view(out@)[k]).0 == ov[k].0,
            ctx@ == ctx_after_fields(entry_pairs_view(out@), map_builder@),
            match spec_read_fields(ov.skip(i as int), answers, feed.pos as int) {
                None => spec_read_fields(ov, answers, old(feed).pos as int) is None,
                Some((rest, jj)) => ({
                    &&& spec_read_fields(ov, answers, old(feed).pos as int) is Some
                    &&& spec_read_fields(ov, answers, old(feed).pos as int)->Some_0.1 == jj
                    &&& {
                        let whole = spec_read_fields(ov, answers, old(feed).pos as int)->Some_0.0;
                        &&& whole.len() == i + rest.len()
                        &&& whole.skip(i as int) == rest
                        &&& forall|k: int|
                            0 <= k < i ==> (#[trigger] whole[k]).0 == ov[k].0 && expanded_from(
                                whole[k].1,
                                entry_pairs_view(out@)[k].1,
                            )
                    }
                }),
            },
        decreases obj@.len() - i,
    {
        if i >= obj.len() {
            break ;
        }
        proof {
            assert(decreases_to!(*obj => obj@[i as int]));
            assert(decreases_to!(obj@[i as int] => obj@[i as int].1));
            assert(ov.skip(i as int)[0] == ov[i as int]);
            assert(ov.skip(i as int).len() == ov.len() - i);
        }
        let ghost pos_before = feed.pos;
        let r = read(obj[i].0.as_str(), &obj[i].1, ctx, feed);
        match r {
            Err(e) => {
                proof {
                    assert(spec_read_fields(ov.skip(i as int), answers, pos_before as int)
                        is None);
                }
                return Err(e);
            },
            Ok((ctx2, resolved)) => {
                ctx = ctx2;
                let ghost old_out = out@;
                out.push((obj[i].0.clone(), resolved));
                proof {
                    crate::models::lemma_entry_pairs_view_len(old_out);
                    crate::models::lemma_entry_pairs_view_len(out@);
                    assert(entry_pairs_view(out@) =~= entry_pairs_view(old_out) + seq![
                        (obj@[i as int].0@, resolved@),
                    ]);
                    lemma_ctx_after_fields_snoc(
                        entry_pairs_view(old_out),
                        (obj@[i as int].0@, resolved@),
                        map_builder@,
                    );
                    // step the model forward
                    let m = spec_read(ov[i as int].1, answers, pos_before as int);
                    assert(ov.skip(i as int).drop_first() =~= ov.skip(i + 1));
                    let step = spec_read_fields(ov.skip(i as int), answers, pos_before as int);
                    let next = spec_read_fields(ov.skip(i + 1), answers, feed.pos as int);
                    assert(step == (match next {
                        None => None::<(Seq<(Seq<char>, EntryV)>, int)>,
                        Some((rest, j2)) => Some(
                            (seq![(ov[i as int].0, m->Some_0.0)] + rest, j2),
                        ),
                    }));
                    if next is Some {
                        let whole = spec_read_fields(ov, answers, old(feed).pos as int)->Some_0.0;
                        assert(whole.skip(i as int) == seq![(ov[i as int].0, m->Some_0.0)]
                            + next->Some_0.0);
                        assert(whole.skip(i as int)[0] == (ov[i as int].0, m->Some_0.0));
                        assert(whole[i as int] == whole.skip(i as int)[0]);
                        assert(whole.skip(i as int).drop_first() =~= whole.skip(i + 1));
                        assert(whole.skip(i + 1) =~= next->Some_0.0);
                        assert(expanded_from(whole[i as int].1, entry_pairs_view(out@)[i as int].1));
                    }
                }
                i += 1;
            },
        }
    }
    proof {
        assert(ov.skip(i as int) =~= Seq::<(Seq<char>, EntryV)>::empty());
        let whole = spec_read_fields(ov, answers, old(feed).pos as int)->Some_0.0;
        assert(whole.len() == i);
        assert forall|k: int| 0 <= k < i implies (#[trigger] whole[k]).0 == entry_pairs_view(
            out@,
        )[k].0 && expanded_from(whole[k].1, entry_pairs_view(out@)[k].1) by {
            assert(whole[k].0 == ov[k].0);
        }
        crate::models::lemma_entry_pairs_view_len(out@);
        assert(expanded_from(EntryV::Object(whole), EntryV::Object(entry_pairs_view(out@))));
    }
    Ok((ctx, EntryType::Object(out)))
}

/// Resolve list elements from the prototype: each affirmative confirmation
/// adds another one, a negative one ends the list, an unanswered one cancels;
/// the derived short-name summary is put into the context.
#[verifier::loop_isolation(false)]
pub fn read_array(key: &str, proto_type: &EntryType, map_builder: Context, feed: &mut AnswerFeed) -> (r:
    Result<(Context, EntryType), CollectError>)
    requires
        old(feed).pos <= old(feed).answers@.len(),
        arrays_nonempty(proto_type@),
    ensures
        final(feed).answers.deep_view() == old(feed).answers.deep_view(),
        old(feed).pos <= final(feed).pos <= final(feed).answers@.len(),
        match r {
            Ok(p) => ({
                let m = spec_read_items(
                    proto_type@,
                    old(feed).answers.deep_view(),
                    old(feed).pos as int,
                );
                &&& m is Some
                &&& final(feed).pos as int == m->Some_0.1
                &&& expanded_from(EntryV::Array(m->Some_0.0), p.1@)
                &&& (p.1@ matches EntryV::Array(items) && p.0@ == ctx_insert(
                    ctx_after_items(key@, items, map_builder@),
                    key@ + "_shortNames"@,
                    CtxValueV::Str(short_names_of(items)),
                ))
            }),
            Err(_) => spec_read_items(
                proto_type@,
                old(feed).answers.deep_view(),
                old(feed).pos as int,
            ) is None,
        },
    decreases proto_type, 2int,
{
    let ghost answers = old(feed).answers.deep_view();
    let mut ctx = map_builder;
    let mut out: Vec<EntryType> = Vec::new();
    proof {
        crate::models::lemma_entries_view_len(out@);
        assert(entries_view(out@) =~= Seq::<EntryV>::empty());
        if spec_read_items(proto_type@, answers, old(feed).pos as int) is Some {
            let whole = spec_read_items(proto_type@, answers, old(feed).pos as int)->Some_0.0;
            assert(whole.skip(0) =~= whole);
        }
    }
    loop
        invariant
            feed.answers.deep_view() == answers,
            old(feed).pos <= feed.pos <= feed.answers@.len(),
            ctx@ == ctx_after_items(key@, entries_view(out@), map_builder@),
            match spec_read_items(proto_type@, answers, feed.pos as int) {
                None => spec_read_items(proto_type@, answers, old(feed).pos as int) is None,
                Some((rest, jj)) => ({
                    &&& spec_read_items(proto_type@, answers, old(feed).pos as int) is Some
                    &&& spec_read_items(proto_type@, answers, old(feed).pos as int)->Some_0.1 == jj
                    &&& {
                        let whole = spec_read_items(
                            proto_type@,
                            answers,
                            old(feed).pos as int,
                        )->Some_0.0;
                        &&& whole.len() == out@.len() + rest.len()
                        &&& whole.skip(out@.len() as int) == rest
                        &&& forall|k: int|
                            0 <= k < out@.len() ==> expanded_from(
                                #[trigger] whole[k],
                                entries_view(out@)[k],
                            )
                    }
                }),
            },
        decreases feed.answers@.len() - feed.pos,
    {
        let ghost pos_before = feed.pos;
        let ghost built = out@.len() as int;
        let r = read(key, proto_type, ctx, feed);
        match r {
            Err(e) => {
                return Err(e);
            },
            Ok((ctx2, resolved)) => {
                ctx = ctx2;
                let ghost old_out = out@;
                let ghost m = spec_read(proto_type@, answers, pos_before as int);
                out.push(resolved);
                proof {
                    crate::models::lemma_entries_view_len(old_out);
                    crate::models::lemma_entries_view_len(out@);
                    assert(entries_view(out@) =~= entries_view(old_out) + seq![resolved@]);
                    lemma_ctx_after_items_snoc(key@, entries_view(old_out), resolved@, map_builder@);
                }
                // ask for another one; an unanswered confirmation cancels
                if feed.pos >= feed.answers.len() {
                    proof {
                        assert(spec_read_items(proto_type@, answers, pos_before as int) is None);
                    }
                    return Err(CollectError::Cancelled);
                }
                let go_on: bool = match &feed.answers[feed.pos] {
                    Answer::Confirm(b) => *b,
                    _ => {
                        proof {
                            assert(spec_read_items(proto_type@, answers, pos_before as int)
                                is None);
                        }
                        return Err(CollectError::Cancelled);
                    },
                };
                feed.pos = feed.pos + 1;
                proof {
                    let step = spec_read_items(proto_type@, answers, pos_before as int);
                    if go_on {
                        let next = spec_read_items(proto_type@, answers, feed.pos as int);
                        assert(step == (match next {
                            None => None::<(Seq<EntryV>, int)>,
                            Some((rest, j2)) => Some((seq![m->Some_0.0] + rest, j2)),
                        }));
                        if next is Some {
                            let whole = spec_read_items(
                                proto_type@,
                                answers,
                                old(feed).pos as int,
                            )->Some_0.0;
                            assert(whole.skip(built) == seq![m->Some_0.0] + next->Some_0.0);
                            assert(whole[built] == whole.skip(built)[0]);
                            assert(whole.skip(built).drop_first() =~= whole.skip(built + 1));
                            assert(whole.skip(built + 1) =~= next->Some_0.0);
                            assert(expanded_from(whole[built], entries_view(out@)[built]));
                        }
                    } else {
                        assert(step == Some((seq![m->Some_0.0], feed.pos as int)));
                        let whole = spec_read_items(
                            proto_type@,
                            answers,
                            old(feed).pos as int,
                        )->Some_0.0;
                        assert(whole.skip(built) == seq![m->Some_0.0]);
                        assert(whole[built] == whole.skip(built)[0]);
                        assert(whole.len() == built + 1);
                        assert(expanded_from(whole[built], entries_view(out@)[built]));
                    }
                }
                if !go_on {
                    // done collecting
                    proof {
                        let whole = spec_read_items(
                            proto_type@,
                            answers,
                            old(feed).pos as int,
                        )->Some_0.0;
                        crate::models::lemma_entries_view_len(out@);
                        assert(whole.len() == out@.len());
                        assert(expanded_from(
                            EntryV::Array(whole),
                            EntryV::Array(entries_view(out@)),
                        ));
                    }
                    let names = get_short_names(out.as_slice());
                    let snk = sn_key(key);
                    ctx.insert(snk, CtxValue::Str(names));
                    return Ok((ctx, EntryType::Array(out)));
                }
            },
        }
    }
}

/// Resolve a placeholder value from its prototype, by variant: a scalar asks
/// for its text, a mapping resolves each field in order, a list collects
/// elements while the operator confirms.
pub fn read(key: &str, entry_type: &EntryType, map_builder: Context, feed: &mut AnswerFeed) -> (r:
    Result<(Context, EntryType), CollectError>)
    requires
        old(feed).pos <= old(feed).answers@.len(),
        arrays_nonempty(entry_type@),
    ensures
        final(feed).answers.deep_view() == old(feed).answers.deep_view(),
        old(feed).pos <= final(feed).pos <= final(feed).answers@.len(),
        match r {
            Ok(p) => ({
                let m = spec_read(
                    entry_type@,
                    old(feed).answers.deep_view(),
                    old(feed).pos as int,
                );
                &&& m is Some
                &&& final(feed).pos as int == m->Some_0.1
                &&& expanded_from(m->Some_0.0, p.1@)
                &&& p.0@ == ctx_after_read(key@, p.1@, map_builder@)
            }),
            Err(_) => spec_read(
                entry_type@,
                old(feed).answers.deep_view(),
                old(feed).pos as int,
            ) is None,
        },
    decreases entry_type, 0int,
{
    match entry_type {
        EntryType::Value(default) => {
            let mut ctx = map_builder;
            match read_value(key, default.as_str(), feed) {
                Err(e) => Err(e),
                Ok(resolved) => {
                    let payload: String = match &resolved {
                        EntryType::Value(s) => s.clone(),
                        _ => String::new(),
                    };
                    ctx.insert(key.to_owned(), CtxValue::Str(payload));
                    Ok((ctx, resolved))
                },
            }
        },
        EntryType::Object(fields) => {
            proof {
                crate::models::lemma_entry_pairs_view_len(fields@);
            }
            match read_object(fields, map_builder, feed) {
                Err(e) => Err(e),
                Ok(p) => Ok(p),
            }
        },
        EntryType::Array(items) => {
            proof {
                crate::models::lemma_entries_view_len(items@);
                assert(entries_view(items@)[0] == items@[0]@);
                assert(decreases_to!(*entry_type => *items));
                assert(decreases_to!(*items => items@[0]));
            }
            match read_array(key, &items[0], map_builder, feed) {
                Err(e) => Err(e),
                Ok(p) => Ok(p),
            }
        },
    }
}

} // verus!
