use vstd::prelude::*;

use crate::models::{file_pairs_view, lemma_file_pairs_view_len, FileSystemEntry, FileSystemEntryV};
use crate::prompts::{ctx_insert, Context, CtxValue, CtxValueV};

verus! {

// ---------------------------------------------------------------------------
// Supporting-file materialization.
//
// A declared file tree is turned into a plan of plain filesystem steps — make
// a directory, copy a file — and every entry's resolved destination is put
// into the rendering context under the entry's placeholder key, whether or
// not anything is copied.  The caller carries the plan out.
// ---------------------------------------------------------------------------

pub enum FileAction {
    MakeDir { destination: String },
    Copy { source: String, destination: String },
}

#[verifier::ext_equal]
pub enum FileActionV {
    MakeDir { destination: Seq<char> },
    Copy { source: Seq<char>, destination: Seq<char> },
}

impl View for FileAction {
    type V = FileActionV;

    open spec fn view(&self) -> FileActionV {
        match self {
            FileAction::MakeDir { destination } => FileActionV::MakeDir {
                destination: destination@,
            },
            FileAction::Copy { source, destination } => FileActionV::Copy {
                source: source@,
                destination: destination@,
            },
        }
    }
}

impl DeepView for FileAction {
    type V = FileActionV;

    open spec fn deep_view(&self) -> FileActionV {
        self.view()
    }
}

// ---------------------------------------------------------------------------
// Path joining, as the platform's path type does it: an absolute right side
// replaces the left side.
// ---------------------------------------------------------------------------

pub open spec fn path_join(base: Seq<char>, rel: Seq<char>) -> Seq<char> {
    if rel.len() > 0 && rel[0] == '/' {
        rel
    } else if base.len() > 0 && base.last() == '/' {
        base + rel
    } else {
        base + seq!['/'] + rel
    }
}

pub fn join_path(base: &str, rel: &str) -> (r: String)
    ensures
        r@ == path_join(base@, rel@),
{
    let rel_len = rel.unicode_len();
    if rel_len > 0 && rel.get_char(0) == '/' {
        return rel.to_owned();
    }
    let base_len = base.unicode_len();
    let mut out = base.to_owned();
    if !(base_len > 0 && base.get_char(base_len - 1) == '/') {
        out.append("/");
        proof {
            reveal_strlit("/");
            assert("/"@ =~= seq!['/']);
        }
    }
    out.append(rel);
    proof {
        assert(out@ =~= path_join(base@, rel@));
    }
    out
}

// ---------------------------------------------------------------------------
// The resolved destination of an entry: its override where one is given,
// otherwise the working directory joined with its source-relative path.
// ---------------------------------------------------------------------------

pub open spec fn dest_of(
    path: Seq<char>,
    destination: Option<Seq<char>>,
    cwd: Seq<char>,
) -> Seq<char> {
    match destination {
        Some(d) => d,
        None => path_join(cwd, path),
    }
}

fn dest_of_exec(path: &String, destination: &Option<String>, cwd: &str) -> (r: String)
    ensures
        r@ == dest_of(path@, destination.deep_view(), cwd@),
{
    match destination {
        Some(d) => d.clone(),
        None => join_path(cwd, path.as_str()),
    }
}

// ---------------------------------------------------------------------------
// The copy plan: a depth-first traversal.  A file is copied from the module's
// source directory to its destination; a directory is created and its
// children follow with the directory's destination as their new working
// directory.
// ---------------------------------------------------------------------------

pub open spec fn file_actions(
    files: Seq<(Seq<char>, FileSystemEntryV)>,
    module_dir: Seq<char>,
    cwd: Seq<char>,
) -> Seq<FileActionV>
    decreases files, 1int,
{
    if files.len() == 0 {
        Seq::empty()
    } else {
        entry_actions(files[0].1, module_dir, cwd) + file_actions(
            files.drop_first(),
            module_dir,
            cwd,
        )
    }
}

pub open spec fn entry_actions(
    entry: FileSystemEntryV,
    module_dir: Seq<char>,
    cwd: Seq<char>,
) -> Seq<FileActionV>
    decreases entry, 2int,
{
    match entry {
        FileSystemEntryV::File { version, path, destination } => seq![
            FileActionV::Copy {
                source: path_join(module_dir, path),
                destination: dest_of(path, destination, cwd),
            },
        ],
        FileSystemEntryV::Directory { version, path, destination, files } => {
            let d = dest_of(path, destination, cwd);
            seq![FileActionV::MakeDir { destination: d }] + file_actions(files, module_dir, d)
        },
    }
}

proof fn lemma_file_actions_snoc(
    a: Seq<(Seq<char>, FileSystemEntryV)>,
    x: (Seq<char>, FileSystemEntryV),
    module_dir: Seq<char>,
    cwd: Seq<char>,
)
    ensures
        file_actions(a + seq![x], module_dir, cwd) == file_actions(a, module_dir, cwd)
            + entry_actions(x.1, module_dir, cwd),
    decreases a,
{
    if a.len() == 0 {
        assert(a + seq![x] =~= seq![x]);
        assert(seq![x][0] == x);
        assert(file_actions(seq![x], module_dir, cwd) == entry_actions(
            seq![x][0].1,
            module_dir,
            cwd,
        ) + file_actions(seq![x].drop_first(), module_dir, cwd));
        assert(seq![x].drop_first() =~= Seq::<(Seq<char>, FileSystemEntryV)>::empty());
        assert(file_actions(a + seq![x], module_dir, cwd) =~= file_actions(a, module_dir, cwd)
            + entry_actions(x.1, module_dir, cwd));
    } else {
        assert((a + seq![x]).drop_first() =~= a.drop_first() + seq![x]);
        assert((a + seq![x])[0] == a[0]);
        lemma_file_actions_snoc(a.drop_first(), x, module_dir, cwd);
        assert(file_actions(a + seq![x], module_dir, cwd) =~= file_actions(a, module_dir, cwd)
            + entry_actions(x.1, module_dir, cwd));
    }
}

/// The copy plan for a declared file tree: what a materialization with
/// overwriting writes, in traversal order.
#[verifier::loop_isolation(false)]
pub fn write_supporting_files(
    files: &Vec<(String, FileSystemEntry)>,
    path_to_module: &str,
    cwd: &str,
) -> (r: Vec<FileAction>)
    ensures
        r.deep_view() == file_actions(file_pairs_view(files@), path_to_module@, cwd@),
{
    let ghost fv = file_pairs_view(files@);
    proof {
        lemma_file_pairs_view_len(files@);
    }
    let mut out: Vec<FileAction> = Vec::new();
    let mut i: usize = 0;
    proof {
        assert(fv.take(0) =~= Seq::<(Seq<char>, FileSystemEntryV)>::empty());
        assert(out.deep_view() =~= file_actions(fv.take(0), path_to_module@, cwd@));
    }
    while i < files.len()
        invariant
            i <= files@.len(),
            out.deep_view() == file_actions(fv.take(i as int), path_to_module@, cwd@),
        decreases files@.len() - i,
    {
        proof {
            assert(decreases_to!(*files => files@[i as int]));
            assert(decreases_to!(files@[i as int] => files@[i as int].1));
        }
        let ghost old_out = out.deep_view();
        append_entry_actions(&mut out, &files[i].1, path_to_module, cwd);
        proof {
            assert(fv.take(i + 1) =~= fv.take(i as int) + seq![fv[i as int]]);
            lemma_file_actions_snoc(fv.take(i as int), fv[i as int], path_to_module@, cwd@);
        }
        i += 1;
    }
    proof {
        assert(fv.take(files@.len() as int) =~= fv);
    }
    out
}

#[verifier::loop_isolation(false)]
fn append_entry_actions(
    out: &mut Vec<FileAction>,
    entry: &FileSystemEntry,
    path_to_module: &str,
    cwd: &str,
)
    ensures
        final(out).deep_view() == old(out).deep_view() + entry_actions(
            entry@,
            path_to_module@,
            cwd@,
        ),
    decreases entry,
{
    match entry {
        FileSystemEntry::File { version, path, destination } => {
            let source = join_path(path_to_module, path.as_str());
            let dest = dest_of_exec(path, destination, cwd);
            out.push(FileAction::Copy { source, destination: dest });
            proof {
                assert(final(out).deep_view() =~= old(out).deep_view() + entry_actions(
                    entry@,
                    path_to_module@,
                    cwd@,
                ));
            }
        },
        FileSystemEntry::Directory { version, path, destination, files } => {
            let ghost fv = file_pairs_view(files@);
            proof {
                lemma_file_pairs_view_len(files@);
            }
            let dest = dest_of_exec(path, destination, cwd);
            out.push(FileAction::MakeDir { destination: dest.clone() });
            let ghost head = out.deep_view();
            let mut i: usize = 0;
            proof {
                assert(fv.take(0) =~= Seq::<(Seq<char>, FileSystemEntryV)>::empty());
                assert(out.deep_view() =~= head + file_actions(fv.take(0), path_to_module@, dest@));
            }
            while i < files.len()
                invariant
                    i <= files@.len(),
                    dest@ == dest_of(path@, destination.deep_view(), cwd@),
                    out.deep_view() == head + file_actions(fv.take(i as int), path_to_module@, dest@),
                decreases files@.len() - i,
            {
                proof {
                    assert(decreases_to!(*entry => *files));
                    assert(decreases_to!(*files => files@[i as int]));
                    assert(decreases_to!(files@[i as int] => files@[i as int].1));
                }
                append_entry_actions(out, &files[i].1, path_to_module, dest.as_str());
                proof {
                    assert(fv.take(i + 1) =~= fv.take(i as int) + seq![fv[i as int]]);
                    lemma_file_actions_snoc(fv.take(i as int), fv[i as int], path_to_module@, dest@);
                    assert(out.deep_view() =~= head + file_actions(
                        fv.take(i + 1),
                        path_to_module@,
                        dest@,
                    ));
                }
                i += 1;
            }
            proof {
                assert(fv.take(files@.len() as int) =~= fv);
                assert(final(out).deep_view() =~= old(out).deep_view() + entry_actions(
                    entry@,
                    path_to_module@,
                    cwd@,
                ));
            }
        },
    }
}

// ---------------------------------------------------------------------------
// Destination variables: every entry's resolved destination goes into the
// rendering context under the entry's placeholder key, copied or not.  A
// directory's children resolve against the directory's destination, the same
// way the copy plan places them, so the injected path is where the file goes.
// ---------------------------------------------------------------------------

pub open spec fn file_vars(
    files: Seq<(Seq<char>, FileSystemEntryV)>,
    cwd: Seq<char>,
    ctx: Seq<(Seq<char>, CtxValueV)>,
) -> Seq<(Seq<char>, CtxValueV)>
    decreases files, 1int,
{
    if files.len() == 0 {
        ctx
    } else {
        file_vars(files.drop_first(), cwd, entry_vars(files[0].0, files[0].1, cwd, ctx))
    }
}

pub open spec fn entry_vars(
    key: Seq<char>,
    entry: FileSystemEntryV,
    cwd: Seq<char>,
    ctx: Seq<(Seq<char>, CtxValueV)>,
) -> Seq<(Seq<char>, CtxValueV)>
    decreases entry, 2int,
{
    match entry {
        FileSystemEntryV::File { version, path, destination } => ctx_insert(
            ctx,
            key,
            CtxValueV::Str(dest_of(path, destination, cwd)),
        ),
        FileSystemEntryV::Directory { version, path, destination, files } => {
            let d = dest_of(path, destination, cwd);
            let with_dir = ctx_insert(ctx, key, CtxValueV::Str(d));
            file_vars(files, d, with_dir)
        },
    }
}

proof fn lemma_file_vars_snoc(
    a: Seq<(Seq<char>, FileSystemEntryV)>,
    x: (Seq<char>, FileSystemEntryV),
    cwd: Seq<char>,
    ctx: Seq<(Seq<char>, CtxValueV)>,
)
    ensures
        file_vars(a + seq![x], cwd, ctx) == entry_vars(x.0, x.1, cwd, file_vars(a, cwd, ctx)),
    decreases a,
{
    if a.len() == 0 {
        assert(a + seq![x] =~= seq![x]);
        assert(seq![x][0] == x);
        assert(file_vars(seq![x], cwd, ctx) == file_vars(
            seq![x].drop_first(),
            cwd,
            entry_vars(x.0, x.1, cwd, ctx),
        ));
        assert(seq![x].drop_first() =~= Seq::<(Seq<char>, FileSystemEntryV)>::empty());
    } else {
        assert((a + seq![x]).drop_first() =~= a.drop_first() + seq![x]);
        assert((a + seq![x])[0] == a[0]);
        assert(file_vars(a + seq![x], cwd, ctx) == file_vars(
            (a + seq![x]).drop_first(),
            cwd,
            entry_vars(a[0].0, a[0].1, cwd, ctx),
        ));
        lemma_file_vars_snoc(a.drop_first(), x, cwd, entry_vars(a[0].0, a[0].1, cwd, ctx));
    }
}

/// Materialize a file tree into the context and, where overwriting is asked
/// for, into a copy plan.  The context receives the same destination
/// variables whether or not anything is copied, and without overwriting the
/// plan is empty: re-running it changes no file.
#[verifier::loop_isolation(false)]
pub fn add_files_as_vars(
    files: &Vec<(String, FileSystemEntry)>,
    mustache_map_builder: Context,
    home: &str,
    path_to_module: &str,
    cwd: &str,
    should_overwrite: bool,
) -> (r: (Context, Vec<FileAction>))
    ensures
        r.0@ == file_vars(file_pairs_view(files@), cwd@, mustache_map_builder@),
        should_overwrite ==> r.1.deep_view() == file_actions(
            file_pairs_view(files@),
            path_to_module@,
            cwd@,
        ),
        !should_overwrite ==> r.1.deep_view() == Seq::<FileActionV>::empty(),
{
    let actions: Vec<FileAction> = if should_overwrite {
        write_supporting_files(files, path_to_module, cwd)
    } else {
        let empty: Vec<FileAction> = Vec::new();
        proof {
            assert(empty.deep_view() =~= Seq::<FileActionV>::empty());
        }
        empty
    };
    let ghost fv = file_pairs_view(files@);
    proof {
        lemma_file_pairs_view_len(files@);
    }
    let mut ctx = mustache_map_builder;
    let mut i: usize = 0;
    proof {
        assert(fv.take(0) =~= Seq::<(Seq<char>, FileSystemEntryV)>::empty());
    }
    while i < files.len()
        invariant
            i <= files@.len(),
            ctx@ == file_vars(fv.take(i as int), cwd@, mustache_map_builder@),
        decreases files@.len() - i,
    {
        proof {
            assert(decreases_to!(*files => files@[i as int]));
            assert(decreases_to!(files@[i as int] => files@[i as int].1));
        }
        add_entry_vars(&files[i].0, &files[i].1, cwd, &mut ctx);
        proof {
            assert(fv.take(i + 1) =~= fv.take(i as int) + seq![fv[i as int]]);
            lemma_file_vars_snoc(fv.take(i as int), fv[i as int], cwd@, mustache_map_builder@);
        }
        i += 1;
    }
    proof {
        assert(fv.take(files@.len() as int) =~= fv);
    }
    (ctx, actions)
}

#[verifier::loop_isolation(false)]
fn add_entry_vars(key: &String, entry: &FileSystemEntry, cwd: &str, ctx: &mut Context)
    ensures
        final(ctx)@ == entry_vars(key@, entry@, cwd@, old(ctx)@),
    decreases entry,
{
    match entry {
        FileSystemEntry::File { version, path, destination } => {
            let dest = dest_of_exec(path, destination, cwd);
            ctx.insert(key.clone(), CtxValue::Str(dest));
        },
        FileSystemEntry::Directory { version, path, destination, files } => {
            let ghost fv = file_pairs_view(files@);
            proof {
                lemma_file_pairs_view_len(files@);
            }
            let dest = dest_of_exec(path, destination, cwd);
            ctx.insert(key.clone(), CtxValue::Str(dest.clone()));
            let ghost with_dir = ctx@;
            let mut i: usize = 0;
            proof {
                assert(fv.take(0) =~= Seq::<(Seq<char>, FileSystemEntryV)>::empty());
            }
            while i < files.len()
                invariant
                    i <= files@.len(),
                    dest@ == dest_of(path@, destination.deep_view(), cwd@),
                    ctx@ == file_vars(fv.take(i as int), dest@, with_dir),
                decreases files@.len() - i,
            {
                proof {
                    assert(decreases_to!(*entry => *files));
                    assert(decreases_to!(*files => files@[i as int]));
                    assert(decreases_to!(files@[i as int] => files@[i as int].1));
                }
                add_entry_vars(&files[i].0, &files[i].1, dest.as_str(), ctx);
                proof {
                    assert(fv.take(i + 1) =~= fv.take(i as int) + seq![fv[i as int]]);
                    lemma_file_vars_snoc(fv.take(i as int), fv[i as int], dest@, with_dir);
                }
                i += 1;
            }
            proof {
                assert(fv.take(files@.len() as int) =~= fv);
            }
        },
    }
}

} // verus!
