use vstd::prelude::*;

use crate::codec;
use crate::models::{GlobalConfig, ModuleState, PluginInfo, PluginInfoV, UpdateReason};
use crate::version::{
    lemma_version_lt_irrefl, parse_version, semver_parse, version_lt, version_lt_exec,
};

pub mod install;
pub mod update;

verus! {

// ---------------------------------------------------------------------------
// Module state classification.
//
// A module's state is computed fresh from the installed record (where one
// exists) and the repository's current descriptor: a version bump wins over
// every other difference, then any descriptor change, then a template that
// appeared or disappeared.
// ---------------------------------------------------------------------------

pub open spec fn classify_spec(
    installed: Option<PluginInfoV>,
    repo: PluginInfoV,
    old_script_exists: bool,
    new_template_exists: bool,
) -> ModuleState {
    match installed {
        None => ModuleState::NotInstalled,
        Some(ic) => {
            let vo = semver_parse(ic.plugin_info.version);
            let vn = semver_parse(repo.plugin_info.version);
            if vo is Some && vn is Some && version_lt(vo->Some_0, vn->Some_0) {
                ModuleState::NeedsUpdate(UpdateReason::NewVersion)
            } else if ic != repo {
                ModuleState::NeedsUpdate(UpdateReason::TomlChanged)
            } else if old_script_exists != new_template_exists {
                ModuleState::NeedsUpdate(UpdateReason::TemplateChanged)
            } else {
                ModuleState::UpToDate
            }
        },
    }
}

/// Classify a module from its installed descriptor copy (where the module is
/// installed), the repository's current descriptor, and whether the installed
/// script and the repository template exist.
pub fn check_module_state(
    installed_config: Option<&PluginInfo>,
    new_config: &PluginInfo,
    old_script_exists: bool,
    new_template_exists: bool,
) -> (r: ModuleState)
    ensures
        r == classify_spec(
            match installed_config {
                Some(c) => Some(c@),
                None => None,
            },
            new_config@,
            old_script_exists,
            new_template_exists,
        ),
{
    match installed_config {
        None => ModuleState::NotInstalled,
        Some(config) => {
            let old_version = parse_version(config.plugin_info.version.as_str());
            let new_version = parse_version(new_config.plugin_info.version.as_str());
            let newer: bool = match (&old_version, &new_version) {
                (Some(vo), Some(vn)) => version_lt_exec(vo, vn),
                _ => false,
            };
            if newer {
                return ModuleState::NeedsUpdate(UpdateReason::NewVersion);
            }
            if !crate::models::plugin_info_eq(config, new_config) {
                return ModuleState::NeedsUpdate(UpdateReason::TomlChanged);
            }
            if old_script_exists != new_template_exists {
                ModuleState::NeedsUpdate(UpdateReason::TemplateChanged)
            } else {
                ModuleState::UpToDate
            }
        },
    }
}

/// A module whose installed descriptor equals the repository's, with the
/// script present on both sides or absent on both, is up to date.
pub proof fn lemma_classify_identical(c: PluginInfoV, script_exists: bool)
    ensures
        classify_spec(Some(c), c, script_exists, script_exists) == ModuleState::UpToDate,
{
    match semver_parse(c.plugin_info.version) {
        Some(v) => lemma_version_lt_irrefl(v),
        None => {},
    }
}

/// A repository version strictly newer than the installed one classifies as
/// an update for that reason, whatever else differs.
pub proof fn lemma_classify_new_version(
    installed: PluginInfoV,
    repo: PluginInfoV,
    old_script_exists: bool,
    new_template_exists: bool,
)
    requires
        semver_parse(installed.plugin_info.version) is Some,
        semver_parse(repo.plugin_info.version) is Some,
        version_lt(
            semver_parse(installed.plugin_info.version)->Some_0,
            semver_parse(repo.plugin_info.version)->Some_0,
        ),
    ensures
        classify_spec(Some(installed), repo, old_script_exists, new_template_exists)
            == ModuleState::NeedsUpdate(UpdateReason::NewVersion),
{
}

// ---------------------------------------------------------------------------
// Descriptor records.
// ---------------------------------------------------------------------------

#[derive(PartialEq, Eq, Structural, Clone, Copy, Debug)]
pub enum ConfigError {
    Invalid,
}

/// Parse a module descriptor from the text of its config record.
pub fn read_config(config_text: &str) -> (r: Result<PluginInfo, ConfigError>)
    ensures
        match r {
            Ok(p) => codec::parse_plugin_info_full(config_text@) == Some(p@),
            Err(_) => codec::parse_plugin_info_full(config_text@) is None,
        },
{
    match codec::plugin_info_from_text(config_text) {
        Some(p) => Ok(p),
        None => Err(ConfigError::Invalid),
    }
}

// ---------------------------------------------------------------------------
// The list of installed modules: of the files found under the install root,
// those whose path names a rendered script, with the root prefix removed.
// ---------------------------------------------------------------------------

pub open spec fn match_at(s: Seq<char>, sub: Seq<char>, k: int) -> bool {
    0 <= k && k + sub.len() <= s.len() && s.subrange(k, k + sub.len() as int) == sub
}

pub open spec fn has_substring(s: Seq<char>, sub: Seq<char>) -> bool {
    exists|k: int| match_at(s, sub, k)
}

#[verifier::loop_isolation(false)]
fn matches_at_exec(s: &str, sub: &str, k: usize) -> (r: bool)
    requires
        k + sub@.len() <= s@.len(),
    ensures
        r == match_at(s@, sub@, k as int),
{
    let n = s.unicode_len();
    let m = sub.unicode_len();
    let mut j: usize = 0;
    while j < m
        invariant
            j <= m,
            forall|t: int| 0 <= t < j ==> s@[k + t] == sub@[t],
        decreases m - j,
    {
        if s.get_char(k + j) != sub.get_char(j) {
            proof {
                assert(s@.subrange(k as int, k + sub@.len() as int)[j as int] != sub@[j as int]);
            }
            return false;
        }
        j += 1;
    }
    proof {
        assert(s@.subrange(k as int, k + sub@.len() as int) =~= sub@);
    }
    true
}

/// Whether `sub` occurs in `s`.
#[verifier::loop_isolation(false)]
pub fn contains_text(s: &str, sub: &str) -> (r: bool)
    ensures
        r == has_substring(s@, sub@),
{
    let n = s.unicode_len();
    let m = sub.unicode_len();
    if m > n {
        proof {
            assert(forall|k: int| !match_at(s@, sub@, k));
        }
        return false;
    }
    if m == 0 {
        proof {
            assert(s@.subrange(0, 0) =~= sub@);
            assert(match_at(s@, sub@, 0));
        }
        return true;
    }
    let mut k: usize = 0;
    while k <= n - m
        invariant
            m >= 1,
            k <= n - m + 1,
            forall|t: int| 0 <= t < k ==> !match_at(s@, sub@, t),
        decreases n - m + 1 - k,
    {
        if matches_at_exec(s, sub, k) {
            return true;
        }
        k += 1;
    }
    proof {
        assert forall|t: int| !match_at(s@, sub@, t) by {
            if 0 <= t <= n - m {
                assert(!match_at(s@, sub@, t));
            }
        }
    }
    false
}

/// A found path counts when it names a rendered script; the install root is
/// removed from it.
pub open spec fn installed_module_list(paths: Seq<Seq<char>>, base: Seq<char>) -> Seq<Seq<char>>
    decreases paths.len(),
{
    if paths.len() == 0 {
        Seq::empty()
    } else {
        (if has_substring(paths[0], "script.sh"@) {
            seq![strip_base(paths[0], base)]
        } else {
            Seq::<Seq<char>>::empty()
        }) + installed_module_list(paths.drop_first(), base)
    }
}

/// The path with the install root removed: what follows the root and its
/// separator where the path lies under the root, the path itself otherwise.
pub open spec fn strip_base(path: Seq<char>, base: Seq<char>) -> Seq<char> {
    if base.len() + 1 <= path.len() && path.subrange(0, base.len() as int) == base && path[base.len() as int]
        == '/' {
        path.subrange(base.len() + 1 as int, path.len() as int)
    } else {
        path
    }
}

fn strip_base_exec(path: &String, base: &str) -> (r: String)
    ensures
        r@ == strip_base(path@, base@),
{
    let n = path.as_str().unicode_len();
    let m = base.unicode_len();
    if m < n && matches_at_exec(path.as_str(), base, 0) && path.as_str().get_char(m) == '/' {
        proof {
            assert(path@.subrange(0, base@.len() as int) == base@);
        }
        path.as_str().substring_char(m + 1, n).to_owned()
    } else {
        proof {
            if m < n {
                assert(path@.subrange(0, base@.len() as int) != base@ || path@[base@.len() as int]
                    != '/');
            }
        }
        path.clone()
    }
}

proof fn lemma_installed_module_list_snoc(paths: Seq<Seq<char>>, x: Seq<char>, base: Seq<char>)
    ensures
        installed_module_list(paths + seq![x], base) == installed_module_list(paths, base) + (
        if has_substring(x, "script.sh"@) {
            seq![strip_base(x, base)]
        } else {
            Seq::<Seq<char>>::empty()
        }),
    decreases paths.len(),
{
    if paths.len() == 0 {
        assert(paths + seq![x] =~= seq![x]);
        assert(seq![x].drop_first() =~= Seq::<Seq<char>>::empty());
        assert(installed_module_list(seq![x].drop_first(), base) =~= Seq::<Seq<char>>::empty());
        assert(installed_module_list(paths + seq![x], base) =~= installed_module_list(paths, base)
            + (if has_substring(x, "script.sh"@) {
            seq![strip_base(x, base)]
        } else {
            Seq::<Seq<char>>::empty()
        }));
    } else {
        assert((paths + seq![x]).drop_first() =~= paths.drop_first() + seq![x]);
        assert((paths + seq![x])[0] == paths[0]);
        lemma_installed_module_list_snoc(paths.drop_first(), x, base);
        assert(installed_module_list(paths + seq![x], base) =~= installed_module_list(paths, base)
            + (if has_substring(x, "script.sh"@) {
            seq![strip_base(x, base)]
        } else {
            Seq::<Seq<char>>::empty()
        }));
    }
}

/// Of the files found under the install root, the installed modules: the
/// paths that name a rendered script, with the root prefix removed, in
/// discovery order.
#[verifier::loop_isolation(false)]
pub fn get_list_of_installed_modules(paths: &Vec<String>, base: &str) -> (r: Vec<String>)
    ensures
        r.deep_view() == installed_module_list(paths.deep_view(), base@),
{
    proof {
        reveal_strlit("script.sh");
    }
    let ghost pv = paths.deep_view();
    let mut out: Vec<String> = Vec::new();
    let mut i: usize = 0;
    proof {
        assert(pv.take(0) =~= Seq::<Seq<char>>::empty());
        assert(out.deep_view() =~= installed_module_list(pv.take(0), base@));
    }
    while i < paths.len()
        invariant
            i <= paths@.len(),
            out.deep_view() == installed_module_list(pv.take(i as int), base@),
        decreases paths@.len() - i,
    {
        let ghost old_out = out.deep_view();
        if contains_text(paths[i].as_str(), "script.sh") {
            let stripped = strip_base_exec(&paths[i], base);
            out.push(stripped);
            proof {
                assert(out.deep_view() =~= old_out + seq![strip_base(pv[i as int], base@)]);
            }
        }
        proof {
            assert(pv.take(i + 1) =~= pv.take(i as int) + seq![pv[i as int]]);
            lemma_installed_module_list_snoc(pv.take(i as int), pv[i as int], base@);
            assert(out.deep_view() =~= installed_module_list(pv.take(i + 1), base@));
        }
        i += 1;
    }
    proof {
        assert(pv.take(paths@.len() as int) =~= pv);
    }
    out
}

// ---------------------------------------------------------------------------
// The aggregated source file: one `source <path>` line per installed module,
// in discovery order.
// ---------------------------------------------------------------------------

pub open spec fn source_line(base: Seq<char>, module: Seq<char>) -> Seq<char> {
    "source "@ + crate::template::path_join(base, module)
}

pub open spec fn source_file_lines(base: Seq<char>, modules: Seq<Seq<char>>) -> Seq<char>
    decreases modules.len(),
{
    if modules.len() == 0 {
        Seq::empty()
    } else if modules.len() == 1 {
        source_line(base, modules[0])
    } else {
        source_line(base, modules[0]) + seq!['\n'] + source_file_lines(base, modules.drop_first())
    }
}

proof fn lemma_source_file_lines_snoc(base: Seq<char>, modules: Seq<Seq<char>>, x: Seq<char>)
    ensures
        source_file_lines(base, modules + seq![x]) == if modules.len() == 0 {
            source_line(base, x)
        } else {
            source_file_lines(base, modules) + seq!['\n'] + source_line(base, x)
        },
    decreases modules.len(),
{
    if modules.len() == 0 {
        assert(modules + seq![x] =~= seq![x]);
        assert(seq![x][0] == x);
        assert(source_file_lines(base, seq![x]) == source_line(base, x));
    } else if modules.len() == 1 {
        assert((modules + seq![x]).drop_first() =~= seq![x]);
        assert((modules + seq![x])[0] == modules[0]);
        assert(seq![x][0] == x);
        assert(source_file_lines(base, seq![x]) == source_line(base, x));
        assert(source_file_lines(base, modules + seq![x]) == source_line(base, modules[0])
            + seq!['\n'] + source_line(base, x));
        assert(source_file_lines(base, modules) == source_line(base, modules[0]));
    } else {
        assert((modules + seq![x]).drop_first() =~= modules.drop_first() + seq![x]);
        assert((modules + seq![x])[0] == modules[0]);
        lemma_source_file_lines_snoc(base, modules.drop_first(), x);
        assert(source_file_lines(base, modules + seq![x]) =~= source_file_lines(base, modules)
            + seq!['\n'] + source_line(base, x));
    }
}

/// The text of the aggregated source file for the given modules.
#[verifier::loop_isolation(false)]
pub fn source_file_content(base: &str, modules: &Vec<String>) -> (r: String)
    ensures
        r@ == source_file_lines(base@, modules.deep_view()),
{
    proof {
        reveal_strlit("source ");
        reveal_strlit("\n");
        assert("\n"@ =~= seq!['\n']);
    }
    let ghost mv = modules.deep_view();
    let mut out = String::new();
    let mut i: usize = 0;
    proof {
        assert(mv.take(0) =~= Seq::<Seq<char>>::empty());
    }
    while i < modules.len()
        invariant
            i <= modules@.len(),
            out@ == source_file_lines(base@, mv.take(i as int)),
        decreases modules@.len() - i,
    {
        if i > 0 {
            out.append("\n");
        }
        out.append("source ");
        let joined = crate::template::join_path(base, modules[i].as_str());
        out.append(joined.as_str());
        proof {
            assert(mv.take(i + 1) =~= mv.take(i as int) + seq![mv[i as int]]);
            lemma_source_file_lines_snoc(base@, mv.take(i as int), mv[i as int]);
            assert(out@ =~= source_file_lines(base@, mv.take(i + 1)));
        }
        i += 1;
    }
    proof {
        assert(mv.take(modules@.len() as int) =~= mv);
    }
    out
}

// ---------------------------------------------------------------------------
// Removal.
// ---------------------------------------------------------------------------

#[derive(PartialEq, Eq, Structural, Clone, Copy, Debug)]
pub enum RemoveError {
    NotInstalled,
}

/// Decide a removal: the directory to delete where the module is installed,
/// an error — and no filesystem step at all — where it is not.
pub fn remove(global_config: &GlobalConfig, plugin_name: &str, installed: bool) -> (r: Result<
    String,
    RemoveError,
>)
    ensures
        match r {
            Ok(path) => installed && path@ == crate::template::path_join(
                global_config.home@,
                plugin_name@,
            ),
            Err(e) => !installed && e == RemoveError::NotInstalled,
        },
{
    if !installed {
        return Err(RemoveError::NotInstalled);
    }
    Ok(crate::template::join_path(global_config.home.as_str(), plugin_name))
}

// ---------------------------------------------------------------------------
// Module listing.
// ---------------------------------------------------------------------------

/// The note shown beside an installed module's version: the repository
/// version in parentheses where it differs, nothing where it is the same.
pub fn repo_version_note(installed_version: &String, repo_version: &String) -> (r: String)
    ensures
        installed_version@ == repo_version@ ==> r@ == Seq::<char>::empty(),
        installed_version@ != repo_version@ ==> r@ == " ("@ + repo_version@ + ") "@,
{
    if *installed_version == *repo_version {
        String::new()
    } else {
        let mut out = String::new();
        out.append(" (");
        out.append(repo_version.as_str());
        out.append(") ");
        proof {
            assert(out@ =~= " ("@ + repo_version@ + ") "@);
        }
        out
    }
}

// ---------------------------------------------------------------------------
// Line diffs.
// ---------------------------------------------------------------------------

pub enum DiffLine {
    Left(String),
    Both(String, String),
    Right(String),
}

#[verifier::ext_equal]
pub enum DiffLineV {
    Left(Seq<char>),
    Both(Seq<char>, Seq<char>),
    Right(Seq<char>),
}

impl View for DiffLine {
    type V = DiffLineV;

    open spec fn view(&self) -> DiffLineV {
        match self {
            DiffLine::Left(l) => DiffLineV::Left(l@),
            DiffLine::Both(l, r) => DiffLineV::Both(l@, r@),
            DiffLine::Right(r) => DiffLineV::Right(r@),
        }
    }
}

impl DeepView for DiffLine {
    type V = DiffLineV;

    open spec fn deep_view(&self) -> DiffLineV {
        self.view()
    }
}

/// What the line diff of two texts is: it depends on the texts alone.
pub uninterp spec fn line_diff(left: Seq<char>, right: Seq<char>) -> Seq<DiffLineV>;

/// Relies on `diff::lines`: a line-oriented diff of the two texts, each line
/// kept on the left, on both sides, or on the right.
#[verifier::external_body]
fn diff_lines_raw(left: &str, right: &str) -> (r: Vec<DiffLine>)
    ensures
        r.deep_view() == line_diff(left@, right@),
{
    diff::lines(left, right)
        .into_iter()
        .map(|d| match d {
            diff::Result::Left(l) => DiffLine::Left(l.to_string()),
            diff::Result::Both(l, r) => DiffLine::Both(l.to_string(), r.to_string()),
            diff::Result::Right(r) => DiffLine::Right(r.to_string()),
        })
        .collect()
}

/// The line diff of two texts.
pub fn diff_lines(left: &str, right: &str) -> (r: Vec<DiffLine>)
    ensures
        r.deep_view() == line_diff(left@, right@),
{
    diff_lines_raw(left, right)
}

/// How a diff is displayed: a `-` line for what only the left text has, a `+`
/// line for what only the right text has; common lines are not shown.
pub open spec fn diff_display_of(d: Seq<DiffLineV>) -> Seq<Seq<char>>
    decreases d.len(),
{
    if d.len() == 0 {
        Seq::empty()
    } else {
        (match d[0] {
            DiffLineV::Left(l) => seq![seq!['-'] + l],
            DiffLineV::Both(_, _) => Seq::<Seq<char>>::empty(),
            DiffLineV::Right(r) => seq![seq!['+'] + r],
        }) + diff_display_of(d.drop_first())
    }
}

proof fn lemma_diff_display_snoc(d: Seq<DiffLineV>, x: DiffLineV)
    ensures
        diff_display_of(d + seq![x]) == diff_display_of(d) + (match x {
            DiffLineV::Left(l) => seq![seq!['-'] + l],
            DiffLineV::Both(_, _) => Seq::<Seq<char>>::empty(),
            DiffLineV::Right(r) => seq![seq!['+'] + r],
        }),
    decreases d.len(),
{
    if d.len() == 0 {
        assert(d + seq![x] =~= seq![x]);
        assert(seq![x][0] == x);
        assert(diff_display_of(seq![x]) == (match seq![x][0] {
            DiffLineV::Left(l) => seq![seq!['-'] + l],
            DiffLineV::Both(_, _) => Seq::<Seq<char>>::empty(),
            DiffLineV::Right(r) => seq![seq!['+'] + r],
        }) + diff_display_of(seq![x].drop_first()));
        assert(seq![x].drop_first() =~= Seq::<DiffLineV>::empty());
        assert(diff_display_of(d + seq![x]) =~= diff_display_of(d) + (match x {
            DiffLineV::Left(l) => seq![seq!['-'] + l],
            DiffLineV::Both(_, _) => Seq::<Seq<char>>::empty(),
            DiffLineV::Right(r) => seq![seq!['+'] + r],
        }));
    } else {
        assert((d + seq![x]).drop_first() =~= d.drop_first() + seq![x]);
        assert((d + seq![x])[0] == d[0]);
        lemma_diff_display_snoc(d.drop_first(), x);
        assert(diff_display_of(d + seq![x]) =~= diff_display_of(d) + (match x {
            DiffLineV::Left(l) => seq![seq!['-'] + l],
            DiffLineV::Both(_, _) => Seq::<Seq<char>>::empty(),
            DiffLineV::Right(r) => seq![seq!['+'] + r],
        }));
    }
}

/// The displayed lines of a diff.
#[verifier::loop_isolation(false)]
pub fn diff_display_lines(lines: &Vec<DiffLine>) -> (r: Vec<String>)
    ensures
        r.deep_view() == diff_display_of(lines.deep_view()),
{
    proof {
        reveal_strlit("-");
        reveal_strlit("+");
        assert("-"@ =~= seq!['-']);
        assert("+"@ =~= seq!['+']);
    }
    let ghost dv = lines.deep_view();
    let mut out: Vec<String> = Vec::new();
    let mut i: usize = 0;
    proof {
        assert(dv.take(0) =~= Seq::<DiffLineV>::empty());
        assert(out.deep_view() =~= diff_display_of(dv.take(0)));
    }
    while i < lines.len()
        invariant
            i <= lines@.len(),
            out.deep_view() == diff_display_of(dv.take(i as int)),
        decreases lines@.len() - i,
    {
        let ghost old_out = out.deep_view();
        match &lines[i] {
            DiffLine::Left(l) => {
                let mut line = String::new();
                line.append("-");
                line.append(l.as_str());
                out.push(line);
                proof {
                    assert(out.deep_view() =~= old_out + seq![seq!['-'] + l@]);
                }
            },
            DiffLine::Both(_, _) => {},
            DiffLine::Right(r) => {
                let mut line = String::new();
                line.append("+");
                line.append(r.as_str());
                out.push(line);
                proof {
                    assert(out.deep_view() =~= old_out + seq![seq!['+'] + r@]);
                }
            },
        }
        proof {
            assert(dv.take(i + 1) =~= dv.take(i as int) + seq![dv[i as int]]);
            lemma_diff_display_snoc(dv.take(i as int), dv[i as int]);
            assert(out.deep_view() =~= diff_display_of(dv.take(i + 1)));
        }
        i += 1;
    }
    proof {
        assert(dv.take(lines@.len() as int) =~= dv);
    }
    out
}

} // verus!
