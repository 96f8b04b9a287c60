use vstd::prelude::*;

verus! {

// ---------------------------------------------------------------------------
// Placeholder value trees.
//
// A placeholder value is a scalar string, an ordered mapping of named
// sub-entries, or an ordered list of entries.  Mapping key order and list
// order are semantically meaningful: they drive prompt order and the order of
// generated output.  Ordered mappings are held as vectors of key/value pairs.
// ---------------------------------------------------------------------------

pub enum EntryType {
    Value(String),
    Object(Vec<(String, EntryType)>),
    Array(Vec<EntryType>),
}

/// Mathematical model of an `EntryType`.
#[verifier::ext_equal]
pub enum EntryV {
    Value(Seq<char>),
    Object(Seq<(Seq<char>, EntryV)>),
    Array(Seq<EntryV>),
}

impl View for EntryType {
    type V = EntryV;

    open spec fn view(&self) -> EntryV
        decreases self,
    {
        match self {
            EntryType::Value(s) => EntryV::Value(s@),
            EntryType::Object(fields) => EntryV::Object(entry_pairs_view(fields@)),
            EntryType::Array(items) => EntryV::Array(entries_view(items@)),
        }
    }
}

pub open spec fn entry_pairs_view(s: Seq<(String, EntryType)>) -> Seq<(Seq<char>, EntryV)>
    decreases s,
{
    if s.len() == 0 {
        Seq::empty()
    } else {
        seq![(s[0].0@, s[0].1@)] + entry_pairs_view(s.drop_first())
    }
}

pub open spec fn entries_view(s: Seq<EntryType>) -> Seq<EntryV>
    decreases s,
{
    if s.len() == 0 {
        Seq::empty()
    } else {
        seq![s[0]@] + entries_view(s.drop_first())
    }
}

// ---------------------------------------------------------------------------
// Supporting-file trees.
// ---------------------------------------------------------------------------

pub enum FileSystemEntry {
    Directory {
        version: String,
        path: String,
        destination: Option<String>,
        files: Vec<(String, FileSystemEntry)>,
    },
    File {
        version: String,
        path: String,
        destination: Option<String>,
    },
}

#[verifier::ext_equal]
pub enum FileSystemEntryV {
    Directory {
        version: Seq<char>,
        path: Seq<char>,
        destination: Option<Seq<char>>,
        files: Seq<(Seq<char>, FileSystemEntryV)>,
    },
    File {
        version: Seq<char>,
        path: Seq<char>,
        destination: Option<Seq<char>>,
    },
}

impl View for FileSystemEntry {
    type V = FileSystemEntryV;

    open spec fn view(&self) -> FileSystemEntryV
        decreases self,
    {
        match self {
            FileSystemEntry::Directory { version, path, destination, files } => {
                FileSystemEntryV::Directory {
                    version: version@,
                    path: path@,
                    destination: destination.deep_view(),
                    files: file_pairs_view(files@),
                }
            },
            FileSystemEntry::File { version, path, destination } => {
                FileSystemEntryV::File {
                    version: version@,
                    path: path@,
                    destination: destination.deep_view(),
                }
            },
        }
    }
}

pub open spec fn file_pairs_view(s: Seq<(String, FileSystemEntry)>) -> Seq<
    (Seq<char>, FileSystemEntryV),
>
    decreases s,
{
    if s.len() == 0 {
        Seq::empty()
    } else {
        seq![(s[0].0@, s[0].1@)] + file_pairs_view(s.drop_first())
    }
}

// ---------------------------------------------------------------------------
// Module descriptors.
// ---------------------------------------------------------------------------

pub enum PluginType {
    Shell(String),
    Script(String),
    RustPackage { path: Option<String>, git: Option<String>, tag: Option<String> },
}

#[verifier::ext_equal]
pub enum PluginTypeV {
    Shell(Seq<char>),
    Script(Seq<char>),
    RustPackage {
        path: Option<Seq<char>>,
        git: Option<Seq<char>>,
        tag: Option<Seq<char>>,
    },
}

impl View for PluginType {
    type V = PluginTypeV;

    open spec fn view(&self) -> PluginTypeV {
        match self {
            PluginType::Shell(s) => PluginTypeV::Shell(s@),
            PluginType::Script(s) => PluginTypeV::Script(s@),
            PluginType::RustPackage { path, git, tag } => PluginTypeV::RustPackage {
                path: path.deep_view(),
                git: git.deep_view(),
                tag: tag.deep_view(),
            },
        }
    }
}

pub struct Package {
    pub author: String,
    pub version: String,
    pub help: Option<String>,
    pub internal_dependencies: Option<Vec<String>>,
    pub external_dependencies: Option<Vec<String>>,
    pub plugin_type: PluginType,
}

#[verifier::ext_equal]
pub struct PackageV {
    pub author: Seq<char>,
    pub version: Seq<char>,
    pub help: Option<Seq<char>>,
    pub internal_dependencies: Option<Seq<Seq<char>>>,
    pub external_dependencies: Option<Seq<Seq<char>>>,
    pub plugin_type: PluginTypeV,
}

impl View for Package {
    type V = PackageV;

    open spec fn view(&self) -> PackageV {
        PackageV {
            author: self.author@,
            version: self.version@,
            help: self.help.deep_view(),
            internal_dependencies: self.internal_dependencies.deep_view(),
            external_dependencies: self.external_dependencies.deep_view(),
            plugin_type: self.plugin_type@,
        }
    }
}

/// A full module descriptor: the package metadata, the placeholder prototype
/// mapping and the supporting-file declarations, both in insertion order.
pub struct PluginInfo {
    pub plugin_info: Package,
    pub placeholders: Option<Vec<(String, EntryType)>>,
    pub supporting_files: Option<Vec<(String, FileSystemEntry)>>,
}

#[verifier::ext_equal]
pub struct PluginInfoV {
    pub plugin_info: PackageV,
    pub placeholders: Option<Seq<(Seq<char>, EntryV)>>,
    pub supporting_files: Option<Seq<(Seq<char>, FileSystemEntryV)>>,
}

impl View for PluginInfo {
    type V = PluginInfoV;

    open spec fn view(&self) -> PluginInfoV {
        PluginInfoV {
            plugin_info: self.plugin_info@,
            placeholders: match self.placeholders {
                Some(ps) => Some(entry_pairs_view(ps@)),
                None => None,
            },
            supporting_files: match self.supporting_files {
                Some(fs) => Some(file_pairs_view(fs@)),
                None => None,
            },
        }
    }
}

// ---------------------------------------------------------------------------
// Module state classification.
// ---------------------------------------------------------------------------

#[derive(PartialEq, Eq, Structural, Clone, Copy, Debug)]
pub enum UpdateReason {
    TomlChanged,
    TemplateChanged,
    NewVersion,
}

#[derive(PartialEq, Eq, Structural, Clone, Copy, Debug)]
pub enum ModuleState {
    NotInstalled,
    UpToDate,
    NeedsUpdate(UpdateReason),
}

// ---------------------------------------------------------------------------
// Global configuration.
// ---------------------------------------------------------------------------

pub struct GlobalConfig {
    pub config_path: String,
    pub git_repo: String,
    pub ssh_key: Option<String>,
    pub key_needs_pw: bool,
    pub home: String,
}

#[verifier::ext_equal]
pub struct GlobalConfigV {
    pub config_path: Seq<char>,
    pub git_repo: Seq<char>,
    pub ssh_key: Option<Seq<char>>,
    pub key_needs_pw: bool,
    pub home: Seq<char>,
}

impl View for GlobalConfig {
    type V = GlobalConfigV;

    open spec fn view(&self) -> GlobalConfigV {
        GlobalConfigV {
            config_path: self.config_path@,
            git_repo: self.git_repo@,
            ssh_key: self.ssh_key.deep_view(),
            key_needs_pw: self.key_needs_pw,
            home: self.home@,
        }
    }
}

impl GlobalConfig {
    /// A fresh configuration rooted at the given install directory: the
    /// config record lives inside it, no catalog and no key are set yet.
    pub fn new(home: String) -> (r: GlobalConfig)
        ensures
            r@.home == home@,
            r@.config_path == crate::template::path_join(home@, "global_config.toml"@),
            r@.git_repo == Seq::<char>::empty(),
            r@.ssh_key is None,
            r@.key_needs_pw == false,
    {
        let config_path = crate::template::join_path(home.as_str(), "global_config.toml");
        GlobalConfig {
            config_path,
            git_repo: String::new(),
            ssh_key: None,
            key_needs_pw: false,
            home,
        }
    }
}

// ---------------------------------------------------------------------------
// Lookup in ordered key/value sequences (first match wins).
// ---------------------------------------------------------------------------

pub open spec fn assoc_has<V>(s: Seq<(Seq<char>, V)>, k: Seq<char>) -> bool {
    exists|i: int| 0 <= i < s.len() && (#[trigger] s[i]).0 == k
}

pub open spec fn assoc_get<V>(s: Seq<(Seq<char>, V)>, k: Seq<char>) -> Option<V>
    decreases s.len(),
{
    if s.len() == 0 {
        None
    } else if s[0].0 == k {
        Some(s[0].1)
    } else {
        assoc_get(s.drop_first(), k)
    }
}

pub proof fn lemma_assoc_get_has<V>(s: Seq<(Seq<char>, V)>, k: Seq<char>)
    ensures
        assoc_get(s, k) is Some <==> assoc_has(s, k),
    decreases s.len(),
{
    if s.len() > 0 {
        if s[0].0 == k {
        } else {
            lemma_assoc_get_has(s.drop_first(), k);
            if assoc_has(s.drop_first(), k) {
                let i = choose|i: int|
                    0 <= i < s.drop_first().len() && (#[trigger] s.drop_first()[i]).0 == k;
                assert(s[i + 1].0 == k);
            }
            if assoc_has(s, k) {
                let i = choose|i: int| 0 <= i < s.len() && (#[trigger] s[i]).0 == k;
                assert(s.drop_first()[i - 1].0 == k);
            }
        }
    }
}

/// A lookup skips over entries whose keys differ.
pub proof fn lemma_assoc_get_skip<V>(s: Seq<(Seq<char>, V)>, k: Seq<char>, i: int)
    requires
        0 <= i <= s.len(),
        forall|j: int| 0 <= j < i ==> (#[trigger] s[j]).0 != k,
    ensures
        assoc_get(s, k) == assoc_get(s.skip(i), k),
    decreases i,
{
    if i == 0 {
        assert(s.skip(0) =~= s);
    } else {
        assert(s[0].0 != k);
        assert(assoc_get(s, k) == assoc_get(s.drop_first(), k));
        assert forall|j: int| 0 <= j < i - 1 implies (#[trigger] s.drop_first()[j]).0 != k by {
            assert(s[j + 1].0 != k);
        }
        lemma_assoc_get_skip(s.drop_first(), k, i - 1);
        assert(s.drop_first().skip(i - 1) =~= s.skip(i));
    }
}

// ---------------------------------------------------------------------------
// Basic views of entry lists.
// ---------------------------------------------------------------------------

pub broadcast proof fn lemma_entry_pairs_view_len(s: Seq<(String, EntryType)>)
    ensures
        (#[trigger] entry_pairs_view(s)).len() == s.len(),
        forall|i: int|
            0 <= i < s.len() ==> #[trigger] entry_pairs_view(s)[i] == (s[i].0@, s[i].1@),
    decreases s,
{
    if s.len() > 0 {
        lemma_entry_pairs_view_len(s.drop_first());
        assert(entry_pairs_view(s) == seq![(s[0].0@, s[0].1@)] + entry_pairs_view(s.drop_first()));
        assert forall|i: int| 0 <= i < s.len() implies #[trigger] entry_pairs_view(s)[i] == (
        s[i].0@,
        s[i].1@,
        ) by {
            if i > 0 {
                assert(entry_pairs_view(s)[i] == entry_pairs_view(s.drop_first())[i - 1]);
                assert(s.drop_first()[i - 1] == s[i]);
            }
        }
    }
}

pub broadcast proof fn lemma_entries_view_len(s: Seq<EntryType>)
    ensures
        (#[trigger] entries_view(s)).len() == s.len(),
        forall|i: int| 0 <= i < s.len() ==> #[trigger] entries_view(s)[i] == s[i]@,
    decreases s,
{
    if s.len() > 0 {
        lemma_entries_view_len(s.drop_first());
        assert(entries_view(s) == seq![s[0]@] + entries_view(s.drop_first()));
        assert forall|i: int| 0 <= i < s.len() implies #[trigger] entries_view(s)[i] == s[i]@ by {
            if i > 0 {
                assert(entries_view(s)[i] == entries_view(s.drop_first())[i - 1]);
                assert(s.drop_first()[i - 1] == s[i]);
            }
        }
    }
}

pub broadcast proof fn lemma_file_pairs_view_len(s: Seq<(String, FileSystemEntry)>)
    ensures
        (#[trigger] file_pairs_view(s)).len() == s.len(),
        forall|i: int|
            0 <= i < s.len() ==> #[trigger] file_pairs_view(s)[i] == (s[i].0@, s[i].1@),
    decreases s,
{
    if s.len() > 0 {
        lemma_file_pairs_view_len(s.drop_first());
        assert(file_pairs_view(s) == seq![(s[0].0@, s[0].1@)] + file_pairs_view(s.drop_first()));
        assert forall|i: int| 0 <= i < s.len() implies #[trigger] file_pairs_view(s)[i] == (
        s[i].0@,
        s[i].1@,
        ) by {
            if i > 0 {
                assert(file_pairs_view(s)[i] == file_pairs_view(s.drop_first())[i - 1]);
                assert(s.drop_first()[i - 1] == s[i]);
            }
        }
    }
}

// ---------------------------------------------------------------------------
// Pointwise characterizations: two pair lists with equal element views have
// equal views.
// ---------------------------------------------------------------------------

pub proof fn lemma_entry_pairs_view_pointwise(a: Seq<(String, EntryType)>, b: Seq<
    (String, EntryType),
>)
    requires
        a.len() == b.len(),
        forall|i: int|
            0 <= i < a.len() ==> (#[trigger] a[i]).0@ == b[i].0@ && a[i].1@ == b[i].1@,
    ensures
        entry_pairs_view(a) == entry_pairs_view(b),
{
    lemma_entry_pairs_view_len(a);
    lemma_entry_pairs_view_len(b);
    assert(entry_pairs_view(a) =~= entry_pairs_view(b));
}

pub proof fn lemma_entries_view_pointwise(a: Seq<EntryType>, b: Seq<EntryType>)
    requires
        a.len() == b.len(),
        forall|i: int| 0 <= i < a.len() ==> (#[trigger] a[i])@ == b[i]@,
    ensures
        entries_view(a) == entries_view(b),
{
    lemma_entries_view_len(a);
    lemma_entries_view_len(b);
    assert(entries_view(a) =~= entries_view(b));
}

pub proof fn lemma_file_pairs_view_pointwise(a: Seq<(String, FileSystemEntry)>, b: Seq<
    (String, FileSystemEntry),
>)
    requires
        a.len() == b.len(),
        forall|i: int|
            0 <= i < a.len() ==> (#[trigger] a[i]).0@ == b[i].0@ && a[i].1@ == b[i].1@,
    ensures
        file_pairs_view(a) == file_pairs_view(b),
{
    lemma_file_pairs_view_len(a);
    lemma_file_pairs_view_len(b);
    assert(file_pairs_view(a) =~= file_pairs_view(b));
}

/// First-match lookup of a key among ordered entry pairs.
#[verifier::loop_isolation(false)]
pub fn entry_pairs_get<'a>(v: &'a Vec<(String, EntryType)>, key: &str) -> (r: Option<
    &'a EntryType,
>)
    ensures
        match r {
            Some(e) => assoc_get(entry_pairs_view(v@), key@) == Some(e@),
            None => assoc_get(entry_pairs_view(v@), key@) is None,
        },
{
    let ghost vv = entry_pairs_view(v@);
    proof {
        lemma_entry_pairs_view_len(v@);
    }
    let needle: String = key.to_owned();
    let mut i: usize = 0;
    while i < v.len()
        invariant
            i <= v@.len(),
            forall|j: int| 0 <= j < i ==> (#[trigger] vv[j]).0 != key@,
        decreases v@.len() - i,
    {
        if v[i].0 == needle {
            proof {
                lemma_assoc_get_skip(vv, key@, i as int);
                assert(vv.skip(i as int)[0] == vv[i as int]);
            }
            return Some(&v[i].1);
        }
        i += 1;
    }
    proof {
        lemma_assoc_get_skip(vv, key@, v@.len() as int);
        assert(vv.skip(v@.len() as int) =~= Seq::<(Seq<char>, EntryV)>::empty());
    }
    None
}

// ---------------------------------------------------------------------------
// Cloning.  Clones preserve the mathematical view exactly.
// ---------------------------------------------------------------------------

impl Clone for EntryType {
#[verifier::loop_isolation(false)]
    fn clone(&self) -> (r: Self)
        ensures
            r@ == self@,
        decreases self,
    {
        match self {
            EntryType::Value(s) => EntryType::Value(s.clone()),
            EntryType::Object(fields) => {
                let mut out: Vec<(String, EntryType)> = Vec::new();
                let mut i: usize = 0;
                while i < fields.len()
                    invariant
                        i <= fields.len(),
                        out@.len() == i,
                        forall|j: int|
                            0 <= j < i ==> (#[trigger] out@[j]).0@ == fields@[j].0@
                                && out@[j].1@ == fields@[j].1@,
                    decreases fields.len() - i,
                {
                    proof {
                        assert(decreases_to!(*self => *fields));
                        assert(decreases_to!(*fields => fields@[i as int]));
                        assert(decreases_to!(fields@[i as int] => fields@[i as int].1));
                    }
                    let cloned_entry = fields[i].1.clone();
                    out.push((fields[i].0.clone(), cloned_entry));
                    i += 1;
                }
                proof {
                    lemma_entry_pairs_view_pointwise(out@, fields@);
                }
                EntryType::Object(out)
            },
            EntryType::Array(items) => {
                let mut out: Vec<EntryType> = Vec::new();
                let mut i: usize = 0;
                while i < items.len()
                    invariant
                        i <= items.len(),
                        out@.len() == i,
                        forall|j: int| 0 <= j < i ==> (#[trigger] out@[j])@ == items@[j]@,
                    decreases items.len() - i,
                {
                    proof {
                        assert(decreases_to!(*self => *items));
                        assert(decreases_to!(*items => items@[i as int]));
                    }
                    let cloned_entry = items[i].clone();
                    out.push(cloned_entry);
                    i += 1;
                }
                proof {
                    lemma_entries_view_pointwise(out@, items@);
                }
                EntryType::Array(out)
            },
        }
    }
}

impl Clone for FileSystemEntry {
#[verifier::loop_isolation(false)]
    fn clone(&self) -> (r: Self)
        ensures
            r@ == self@,
        decreases self,
    {
        match self {
            FileSystemEntry::File { version, path, destination } => FileSystemEntry::File {
                version: version.clone(),
                path: path.clone(),
                destination: clone_opt_string(destination),
            },
            FileSystemEntry::Directory { version, path, destination, files } => {
                let mut out: Vec<(String, FileSystemEntry)> = Vec::new();
                let mut i: usize = 0;
                while i < files.len()
                    invariant
                        i <= files.len(),
                        out@.len() == i,
                        forall|j: int|
                            0 <= j < i ==> (#[trigger] out@[j]).0@ == files@[j].0@ && out@[j].1@
                                == files@[j].1@,
                    decreases files.len() - i,
                {
                    proof {
                        assert(decreases_to!(*self => *files));
                        assert(decreases_to!(*files => files@[i as int]));
                        assert(decreases_to!(files@[i as int] => files@[i as int].1));
                    }
                    let cloned_entry = files[i].1.clone();
                    out.push((files[i].0.clone(), cloned_entry));
                    i += 1;
                }
                proof {
                    lemma_file_pairs_view_pointwise(out@, files@);
                }
                FileSystemEntry::Directory {
                    version: version.clone(),
                    path: path.clone(),
                    destination: clone_opt_string(destination),
                    files: out,
                }
            },
        }
    }
}

pub fn clone_opt_string(o: &Option<String>) -> (r: Option<String>)
    ensures
        r.deep_view() == o.deep_view(),
{
    match o {
        Some(s) => Some(s.clone()),
        None => None,
    }
}

#[verifier::loop_isolation(false)]
pub fn clone_string_vec(v: &Vec<String>) -> (r: Vec<String>)
    ensures
        r.deep_view() == v.deep_view(),
{
    let mut out: Vec<String> = Vec::new();
    let mut i: usize = 0;
    while i < v.len()
        invariant
            i <= v.len(),
            out@.len() == i,
            forall|j: int| 0 <= j < i ==> (#[trigger] out@[j])@ == v@[j]@,
        decreases v.len() - i,
    {
        out.push(v[i].clone());
        i += 1;
    }
    assert(out.deep_view() =~= v.deep_view());
    out
}

pub fn clone_opt_string_vec(o: &Option<Vec<String>>) -> (r: Option<Vec<String>>)
    ensures
        r.deep_view() == o.deep_view(),
{
    match o {
        Some(v) => Some(clone_string_vec(v)),
        None => None,
    }
}

impl Clone for PluginType {
    fn clone(&self) -> (r: Self)
        ensures
            r@ == self@,
    {
        match self {
            PluginType::Shell(s) => PluginType::Shell(s.clone()),
            PluginType::Script(s) => PluginType::Script(s.clone()),
            PluginType::RustPackage { path, git, tag } => PluginType::RustPackage {
                path: clone_opt_string(path),
                git: clone_opt_string(git),
                tag: clone_opt_string(tag),
            },
        }
    }
}

impl Clone for Package {
    fn clone(&self) -> (r: Self)
        ensures
            r@ == self@,
    {
        Package {
            author: self.author.clone(),
            version: self.version.clone(),
            help: clone_opt_string(&self.help),
            internal_dependencies: clone_opt_string_vec(&self.internal_dependencies),
            external_dependencies: clone_opt_string_vec(&self.external_dependencies),
            plugin_type: self.plugin_type.clone(),
        }
    }
}

#[verifier::loop_isolation(false)]
pub fn clone_entry_pairs(v: &Vec<(String, EntryType)>) -> (r: Vec<(String, EntryType)>)
    ensures
        entry_pairs_view(r@) == entry_pairs_view(v@),
        r@.len() == v@.len(),
{
    let mut out: Vec<(String, EntryType)> = Vec::new();
    let mut i: usize = 0;
    while i < v.len()
        invariant
            i <= v.len(),
            out@.len() == i,
            forall|j: int|
                0 <= j < i ==> (#[trigger] out@[j]).0@ == v@[j].0@ && out@[j].1@ == v@[j].1@,
        decreases v.len() - i,
    {
        let cloned_entry = v[i].1.clone();
        out.push((v[i].0.clone(), cloned_entry));
        i += 1;
    }
    proof {
        lemma_entry_pairs_view_pointwise(out@, v@);
    }
    out
}

#[verifier::loop_isolation(false)]
pub fn clone_file_pairs(v: &Vec<(String, FileSystemEntry)>) -> (r: Vec<(String, FileSystemEntry)>)
    ensures
        file_pairs_view(r@) == file_pairs_view(v@),
        r@.len() == v@.len(),
{
    let mut out: Vec<(String, FileSystemEntry)> = Vec::new();
    let mut i: usize = 0;
    while i < v.len()
        invariant
            i <= v.len(),
            out@.len() == i,
            forall|j: int|
                0 <= j < i ==> (#[trigger] out@[j]).0@ == v@[j].0@ && out@[j].1@ == v@[j].1@,
        decreases v.len() - i,
    {
        let cloned_entry = v[i].1.clone();
        out.push((v[i].0.clone(), cloned_entry));
        i += 1;
    }
    proof {
        lemma_file_pairs_view_pointwise(out@, v@);
    }
    out
}

impl Clone for PluginInfo {
    fn clone(&self) -> (r: Self)
        ensures
            r@ == self@,
    {
        PluginInfo {
            plugin_info: self.plugin_info.clone(),
            placeholders: match &self.placeholders {
                Some(ps) => Some(clone_entry_pairs(ps)),
                None => None,
            },
            supporting_files: match &self.supporting_files {
                Some(fs) => Some(clone_file_pairs(fs)),
                None => None,
            },
        }
    }
}

impl Clone for GlobalConfig {
    fn clone(&self) -> (r: Self)
        ensures
            r@ == self@,
    {
        GlobalConfig {
            config_path: self.config_path.clone(),
            git_repo: self.git_repo.clone(),
            ssh_key: clone_opt_string(&self.ssh_key),
            key_needs_pw: self.key_needs_pw,
            home: self.home.clone(),
        }
    }
}

// ---------------------------------------------------------------------------
// Structural equality over the views.
// ---------------------------------------------------------------------------

pub fn eq_opt_string(a: &Option<String>, b: &Option<String>) -> (r: bool)
    ensures
        r == (a.deep_view() == b.deep_view()),
{
    match (a, b) {
        (None, None) => true,
        (Some(x), Some(y)) => *x == *y,
        _ => false,
    }
}

#[verifier::loop_isolation(false)]
pub fn eq_string_vec(a: &Vec<String>, b: &Vec<String>) -> (r: bool)
    ensures
        r == (a.deep_view() == b.deep_view()),
{
    if a.len() != b.len() {
        proof {
            assert(a.deep_view().len() == a@.len());
            assert(b.deep_view().len() == b@.len());
        }
        return false;
    }
    let mut i: usize = 0;
    while i < a.len()
        invariant
            i <= a.len(),
            a@.len() == b@.len(),
            forall|j: int| 0 <= j < i ==> (#[trigger] a@[j])@ == b@[j]@,
        decreases a.len() - i,
    {
        if !(a[i] == b[i]) {
            assert(a.deep_view()[i as int] != b.deep_view()[i as int]);
            return false;
        }
        i += 1;
    }
    assert(a.deep_view() =~= b.deep_view());
    true
}

pub fn eq_opt_string_vec(a: &Option<Vec<String>>, b: &Option<Vec<String>>) -> (r: bool)
    ensures
        r == (a.deep_view() == b.deep_view()),
{
    match (a, b) {
        (None, None) => true,
        (Some(x), Some(y)) => eq_string_vec(x, y),
        _ => false,
    }
}

/// Structural, variant-sensitive equality of two placeholder value trees.
#[verifier::loop_isolation(false)]
pub fn entry_eq(a: &EntryType, b: &EntryType) -> (r: bool)
    ensures
        r == (a@ == b@),
    decreases a,
{
    match (a, b) {
        (EntryType::Value(x), EntryType::Value(y)) => *x == *y,
        (EntryType::Object(xs), EntryType::Object(ys)) => {
            proof {
                lemma_entry_pairs_view_len(xs@);
                lemma_entry_pairs_view_len(ys@);
            }
            if xs.len() != ys.len() {
                return false;
            }
            let mut i: usize = 0;
            while i < xs.len()
                invariant
                    i <= xs.len(),
                    xs@.len() == ys@.len(),
                    forall|j: int|
                        0 <= j < i ==> (#[trigger] xs@[j]).0@ == ys@[j].0@ && xs@[j].1@
                            == ys@[j].1@,
                decreases xs.len() - i,
            {
                proof {
                    assert(decreases_to!(*a => *xs));
                    assert(decreases_to!(*xs => xs@[i as int]));
                    assert(decreases_to!(xs@[i as int] => xs@[i as int].1));
                }
                let keys_equal: bool = xs[i].0 == ys[i].0;
                if !keys_equal || !entry_eq(&xs[i].1, &ys[i].1) {
                    proof {
                        lemma_entry_pairs_view_len(xs@);
                        lemma_entry_pairs_view_len(ys@);
                        assert(entry_pairs_view(xs@)[i as int] != entry_pairs_view(ys@)[i as int]);
                    }
                    return false;
                }
                i += 1;
            }
            proof {
                lemma_entry_pairs_view_pointwise(xs@, ys@);
            }
            true
        },
        (EntryType::Array(xs), EntryType::Array(ys)) => {
            proof {
                lemma_entries_view_len(xs@);
                lemma_entries_view_len(ys@);
            }
            if xs.len() != ys.len() {
                return false;
            }
            let mut i: usize = 0;
            while i < xs.len()
                invariant
                    i <= xs.len(),
                    xs@.len() == ys@.len(),
                    forall|j: int| 0 <= j < i ==> (#[trigger] xs@[j])@ == ys@[j]@,
                decreases xs.len() - i,
            {
                proof {
                    assert(decreases_to!(*a => *xs));
                    assert(decreases_to!(*xs => xs@[i as int]));
                }
                if !entry_eq(&xs[i], &ys[i]) {
                    proof {
                        lemma_entries_view_len(xs@);
                        lemma_entries_view_len(ys@);
                        assert(entries_view(xs@)[i as int] != entries_view(ys@)[i as int]);
                    }
                    return false;
                }
                i += 1;
            }
            proof {
                lemma_entries_view_pointwise(xs@, ys@);
            }
            true
        },
        _ => false,
    }
}

#[verifier::loop_isolation(false)]
pub fn entry_pairs_eq(a: &Vec<(String, EntryType)>, b: &Vec<(String, EntryType)>) -> (r: bool)
    ensures
        r == (entry_pairs_view(a@) == entry_pairs_view(b@)),
{
    proof {
        lemma_entry_pairs_view_len(a@);
        lemma_entry_pairs_view_len(b@);
    }
    if a.len() != b.len() {
        return false;
    }
    let mut i: usize = 0;
    while i < a.len()
        invariant
            i <= a.len(),
            a@.len() == b@.len(),
            forall|j: int|
                0 <= j < i ==> (#[trigger] a@[j]).0@ == b@[j].0@ && a@[j].1@ == b@[j].1@,
        decreases a.len() - i,
    {
        let keys_equal: bool = a[i].0 == b[i].0;
        if !keys_equal || !entry_eq(&a[i].1, &b[i].1) {
            proof {
                lemma_entry_pairs_view_len(a@);
                lemma_entry_pairs_view_len(b@);
                assert(entry_pairs_view(a@)[i as int] != entry_pairs_view(b@)[i as int]);
            }
            return false;
        }
        i += 1;
    }
    proof {
        lemma_entry_pairs_view_pointwise(a@, b@);
    }
    true
}

#[verifier::loop_isolation(false)]
pub fn file_entry_eq(a: &FileSystemEntry, b: &FileSystemEntry) -> (r: bool)
    ensures
        r == (a@ == b@),
    decreases a,
{
    match (a, b) {
        (
            FileSystemEntry::File { version: va, path: pa, destination: da },
            FileSystemEntry::File { version: vb, path: pb, destination: db },
        ) => {
            let versions_equal: bool = *va == *vb;
            let paths_equal: bool = *pa == *pb;
            versions_equal && paths_equal && eq_opt_string(da, db)
        },
        (
            FileSystemEntry::Directory { version: va, path: pa, destination: da, files: fa },
            FileSystemEntry::Directory { version: vb, path: pb, destination: db, files: fb },
        ) => {
            proof {
                lemma_file_pairs_view_len(fa@);
                lemma_file_pairs_view_len(fb@);
            }
            let versions_equal: bool = *va == *vb;
            let paths_equal: bool = *pa == *pb;
            if !versions_equal || !paths_equal || !eq_opt_string(da, db) {
                return false;
            }
            if fa.len() != fb.len() {
                return false;
            }
            let mut i: usize = 0;
            while i < fa.len()
                invariant
                    i <= fa.len(),
                    fa@.len() == fb@.len(),
                    forall|j: int|
                        0 <= j < i ==> (#[trigger] fa@[j]).0@ == fb@[j].0@ && fa@[j].1@
                            == fb@[j].1@,
                decreases fa.len() - i,
            {
                proof {
                    assert(decreases_to!(*a => *fa));
                    assert(decreases_to!(*fa => fa@[i as int]));
                    assert(decreases_to!(fa@[i as int] => fa@[i as int].1));
                }
                let keys_equal: bool = fa[i].0 == fb[i].0;
                if !keys_equal || !file_entry_eq(&fa[i].1, &fb[i].1) {
                    proof {
                        lemma_file_pairs_view_len(fa@);
                        lemma_file_pairs_view_len(fb@);
                        assert(file_pairs_view(fa@)[i as int] != file_pairs_view(fb@)[i as int]);
                    }
                    return false;
                }
                i += 1;
            }
            proof {
                lemma_file_pairs_view_pointwise(fa@, fb@);
            }
            true
        },
        _ => false,
    }
}

#[verifier::loop_isolation(false)]
pub fn file_pairs_eq(a: &Vec<(String, FileSystemEntry)>, b: &Vec<(String, FileSystemEntry)>) -> (r:
    bool)
    ensures
        r == (file_pairs_view(a@) == file_pairs_view(b@)),
{
    proof {
        lemma_file_pairs_view_len(a@);
        lemma_file_pairs_view_len(b@);
    }
    if a.len() != b.len() {
        return false;
    }
    let mut i: usize = 0;
    while i < a.len()
        invariant
            i <= a.len(),
            a@.len() == b@.len(),
            forall|j: int|
                0 <= j < i ==> (#[trigger] a@[j]).0@ == b@[j].0@ && a@[j].1@ == b@[j].1@,
        decreases a.len() - i,
    {
        let keys_equal: bool = a[i].0 == b[i].0;
        if !keys_equal || !file_entry_eq(&a[i].1, &b[i].1) {
            proof {
                lemma_file_pairs_view_len(a@);
                lemma_file_pairs_view_len(b@);
                assert(file_pairs_view(a@)[i as int] != file_pairs_view(b@)[i as int]);
            }
            return false;
        }
        i += 1;
    }
    proof {
        lemma_file_pairs_view_pointwise(a@, b@);
    }
    true
}

pub fn plugin_type_eq(a: &PluginType, b: &PluginType) -> (r: bool)
    ensures
        r == (a@ == b@),
{
    match (a, b) {
        (PluginType::Shell(x), PluginType::Shell(y)) => *x == *y,
        (PluginType::Script(x), PluginType::Script(y)) => *x == *y,
        (
            PluginType::RustPackage { path: pa, git: ga, tag: ta },
            PluginType::RustPackage { path: pb, git: gb, tag: tb },
        ) => eq_opt_string(pa, pb) && eq_opt_string(ga, gb) && eq_opt_string(ta, tb),
        _ => false,
    }
}

pub fn package_eq(a: &Package, b: &Package) -> (r: bool)
    ensures
        r == (a@ == b@),
{
    let authors_equal: bool = a.author == b.author;
    let versions_equal: bool = a.version == b.version;
    authors_equal && versions_equal && eq_opt_string(&a.help, &b.help) && eq_opt_string_vec(
        &a.internal_dependencies,
        &b.internal_dependencies,
    ) && eq_opt_string_vec(&a.external_dependencies, &b.external_dependencies) && plugin_type_eq(
        &a.plugin_type,
        &b.plugin_type,
    )
}

pub fn opt_placeholders_eq(a: &Option<Vec<(String, EntryType)>>, b: &Option<
    Vec<(String, EntryType)>,
>) -> (r: bool)
    ensures
        r == (match (a, b) {
            (Some(x), Some(y)) => Some(entry_pairs_view(x@)) == Some(entry_pairs_view(y@)),
            (None, None) => true,
            _ => false,
        }),
{
    match (a, b) {
        (None, None) => true,
        (Some(x), Some(y)) => entry_pairs_eq(x, y),
        _ => false,
    }
}

/// Full structural equality of two descriptors: any differing field makes
/// them unequal, including the placeholder schema and supporting files.
pub fn plugin_info_eq(a: &PluginInfo, b: &PluginInfo) -> (r: bool)
    ensures
        r == (a@ == b@),
{
    if !package_eq(&a.plugin_info, &b.plugin_info) {
        return false;
    }
    let placeholders_equal = match (&a.placeholders, &b.placeholders) {
        (None, None) => true,
        (Some(x), Some(y)) => entry_pairs_eq(x, y),
        _ => false,
    };
    if !placeholders_equal {
        return false;
    }
    match (&a.supporting_files, &b.supporting_files) {
        (None, None) => true,
        (Some(x), Some(y)) => file_pairs_eq(x, y),
        _ => false,
    }
}

// ---------------------------------------------------------------------------
// Textual rendering of a scalar entry.
// ---------------------------------------------------------------------------

impl EntryType {
    /// The text of a scalar entry; non-scalar entries render as empty text.
    pub fn display_text(&self) -> (r: String)
        ensures
            r@ == (match self@ {
                EntryV::Value(s) => s,
                _ => Seq::<char>::empty(),
            }),
    {
        match self {
            EntryType::Value(s) => s.clone(),
            _ => String::new(),
        }
    }
}

} // verus!
