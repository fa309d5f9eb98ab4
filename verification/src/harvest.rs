//! The fetch orchestrator's planning and classification: which files of a
//! repository's tree are downloaded, what a failed download or tree listing
//! means for the surrounding unit of work, and the bookkeeping pair that
//! concludes every repository's harvest exactly once.
use crate::api::{Error, GithubTree, Node};
use crate::data::Data;
use crate::ledger;
use crate::sink;
use crate::strutil;
use crate::Repo;
use vstd::prelude::*;

verus! {

/// The paths of a file tree that end with the target file name, in tree
/// order: exactly the downloads dispatched for one repository.
pub open spec fn matching_paths(tree: Seq<Node>, suffix: Seq<char>) -> Seq<String>
    decreases tree.len(),
{
    if tree.len() == 0 {
        Seq::empty()
    } else {
        matching_paths(tree.drop_last(), suffix) + (if strutil::ends_with(
            tree.last().path@,
            suffix,
        ) {
            seq![tree.last().path]
        } else {
            Seq::empty()
        })
    }
}

/// Plans one repository's downloads: every tree entry whose path ends with
/// the target file name, and nothing else.
pub fn plan_downloads(tree: &GithubTree, file: &str) -> (r: Vec<String>)
    ensures
        r@ == matching_paths(tree.tree@, file@),
{
    let n = tree.tree.len();
    let mut out: Vec<String> = Vec::new();
    let mut i: usize = 0;
    proof {
        assert(tree.tree@.subrange(0, 0) =~= Seq::<Node>::empty());
    }
    while i < n
        invariant
            n == tree.tree@.len(),
            i <= n,
            out@ == matching_paths(tree.tree@.subrange(0, i as int), file@),
        decreases n - i,
    {
        let ghost sub = tree.tree@.subrange(0, i as int);
        let ghost ext = tree.tree@.subrange(0, i + 1);
        proof {
            assert(ext.drop_last() =~= sub);
            assert(ext.last() == tree.tree@[i as int]);
        }
        if strutil::str_ends_with(tree.tree[i].path.as_str(), file) {
            out.push(tree.tree[i].path.clone());
            proof {
                assert(out@ =~= matching_paths(sub, file@).push(tree.tree@[i as int].path));
                assert(matching_paths(ext, file@) =~= matching_paths(sub, file@).push(
                    tree.tree@[i as int].path,
                ));
            }
        } else {
            proof {
                assert(matching_paths(ext, file@) =~= matching_paths(sub, file@));
            }
        }
        i += 1;
    }
    proof {
        assert(tree.tree@.subrange(0, n as int) =~= tree.tree@);
    }
    out
}

/// A workflow file: under the workflows directory, with a YAML extension.
pub open spec fn is_workflow_path(p: Seq<char>) -> bool {
    strutil::starts_with(p, ".github/workflows"@) && (strutil::ends_with(p, ".yml"@)
        || strutil::ends_with(p, ".yaml"@))
}

pub open spec fn workflow_paths(tree: Seq<Node>) -> Seq<String>
    decreases tree.len(),
{
    if tree.len() == 0 {
        Seq::empty()
    } else {
        workflow_paths(tree.drop_last()) + (if is_workflow_path(tree.last().path@) {
            seq![tree.last().path]
        } else {
            Seq::empty()
        })
    }
}

/// Plans a repository's workflow downloads: exactly its workflow files.
pub fn plan_workflow_downloads(tree: &GithubTree) -> (r: Vec<String>)
    ensures
        r@ == workflow_paths(tree.tree@),
{
    let n = tree.tree.len();
    let mut out: Vec<String> = Vec::new();
    let mut i: usize = 0;
    proof {
        assert(tree.tree@.subrange(0, 0) =~= Seq::<Node>::empty());
    }
    while i < n
        invariant
            n == tree.tree@.len(),
            i <= n,
            out@ == workflow_paths(tree.tree@.subrange(0, i as int)),
        decreases n - i,
    {
        let ghost sub = tree.tree@.subrange(0, i as int);
        let ghost ext = tree.tree@.subrange(0, i + 1);
        proof {
            assert(ext.drop_last() =~= sub);
            assert(ext.last() == tree.tree@[i as int]);
        }
        let p = tree.tree[i].path.as_str();
        let keep = strutil::str_starts_with(p, ".github/workflows") && (strutil::str_ends_with(
            p,
            ".yml",
        ) || strutil::str_ends_with(p, ".yaml"));
        if keep {
            out.push(tree.tree[i].path.clone());
            proof {
                assert(out@ =~= workflow_paths(sub).push(tree.tree@[i as int].path));
                assert(workflow_paths(ext) =~= workflow_paths(sub).push(
                    tree.tree@[i as int].path,
                ));
            }
        } else {
            proof {
                assert(workflow_paths(ext) =~= workflow_paths(sub));
            }
        }
        i += 1;
    }
    proof {
        assert(tree.tree@.subrange(0, n as int) =~= tree.tree@);
    }
    out
}

/// What a failed download means inside one repository's fan-out: a
/// not-found is benign and is skipped; any other failure aborts only this
/// repository's processing.
pub enum FileErrorAction {
    Benign,
    AbortRepo,
}

pub fn classify_file_error(e: &Error) -> (a: FileErrorAction)
    ensures
        (a is Benign) <==> e == Error::Fatal(404u16),
{
    match e {
        Error::Fatal(status) => {
            if *status == 404 {
                FileErrorAction::Benign
            } else {
                FileErrorAction::AbortRepo
            }
        },
        _ => FileErrorAction::AbortRepo,
    }
}

/// What a failed tree listing means: any fatal status skips this
/// repository benignly — it is still ledgered, with no match recorded —
/// while a transient failure or missing data aborts the run.
pub enum TreeErrorAction {
    SkipRepo,
    AbortRun,
}

pub fn classify_tree_error(e: &Error) -> (a: TreeErrorAction)
    ensures
        (a is SkipRepo) <==> (e is Fatal),
{
    match e {
        Error::Fatal(status) => TreeErrorAction::SkipRepo,
        _ => TreeErrorAction::AbortRun,
    }
}

/// Concludes one repository's harvest: the ledger gains its id and the
/// sink gains its row, as one pair, exactly once — whether or not any file
/// matched. Returns the ledger line and the sink bytes the edge appends.
pub fn record_completion(data: &mut Data, repo: Repo, has_file: bool) -> (appends: (String, String))
    requires
        old(data).wf(),
        ledger::nl_free(repo.id@),
        sink::line_free(repo.id@),
        sink::line_free(repo.name@),
    ensures
        final(data).wf(),
        final(data).fetched_ids@ == old(data).fetched_ids@.push(repo.id),
        final(data).csv_exists,
        final(data).last_id == old(data).last_id,
        appends.0@ == ledger::ledger_line(repo.id@),
        appends.1@ == sink::sink_append(
            old(data).csv_exists,
            sink::csv_row(repo.id@, repo.name@, has_file),
        ),
{
    let line = data.mark_fetched(&repo);
    let row = data.store_repo(repo.to_csv_repo(has_file));
    (line, row)
}

/// Relies on itertools' `tuples::<(_, _, _, _, _)>`: it groups the items
/// five at a time in input order and drops the remainder.
#[verifier::external_body]
fn chunk5(v: Vec<String>) -> (r: Vec<(String, String, String, String, String)>)
    ensures
        r@.len() == v@.len() / 5,
        forall|i: int|
            0 <= i < r@.len() ==> #[trigger] r@[i].0 == v@[5 * i] && r@[i].1 == v@[5 * i + 1]
                && r@[i].2 == v@[5 * i + 2] && r@[i].3 == v@[5 * i + 3] && r@[i].4 == v@[5 * i
                + 4],
{
    itertools::Itertools::tuples(v.into_iter()).collect()
}

/// Groups stored project directory names into dispatch groups of five
/// repositories, restoring each full name from its directory form.
pub fn workflow_batches(dirs: Vec<String>) -> (r: Vec<(String, String, String, String, String)>)
    ensures
        r@.len() == dirs@.len() / 5,
        forall|i: int|
            0 <= i < r@.len() ==> #[trigger] r@[i].0@ == strutil::replaced(
                dirs@[5 * i]@,
                '.',
                '/',
            ) && r@[i].1@ == strutil::replaced(dirs@[5 * i + 1]@, '.', '/') && r@[i].2@
                == strutil::replaced(dirs@[5 * i + 2]@, '.', '/') && r@[i].3@ == strutil::replaced(
                dirs@[5 * i + 3]@,
                '.',
                '/',
            ) && r@[i].4@ == strutil::replaced(dirs@[5 * i + 4]@, '.', '/'),
{
    let n = dirs.len();
    let mut names: Vec<String> = Vec::new();
    let mut i: usize = 0;
    while i < n
        invariant
            n == dirs@.len(),
            i <= n,
            names@.len() == i,
            forall|k: int|
                0 <= k < i ==> #[trigger] names@[k]@ == strutil::replaced(dirs@[k]@, '.', '/'),
        decreases n - i,
    {
        let restored = strutil::desanitize_name(dirs[i].as_str());
        names.push(restored);
        i += 1;
    }
    let r = chunk5(names);
    proof {
        vstd::arithmetic::div_mod::lemma_fundamental_div_mod(n as int, 5);
        assert forall|k: int| 0 <= k < r@.len() implies #[trigger] r@[k].0@ == strutil::replaced(
            dirs@[5 * k]@,
            '.',
            '/',
        ) && r@[k].1@ == strutil::replaced(dirs@[5 * k + 1]@, '.', '/') && r@[k].2@
            == strutil::replaced(dirs@[5 * k + 2]@, '.', '/') && r@[k].3@ == strutil::replaced(
            dirs@[5 * k + 3]@,
            '.',
            '/',
        ) && r@[k].4@ == strutil::replaced(dirs@[5 * k + 4]@, '.', '/') by {
            assert(5 * k + 4 < n);
            assert(r@[k].0 == names@[5 * k]);
            assert(r@[k].1 == names@[5 * k + 1]);
            assert(r@[k].2 == names@[5 * k + 2]);
            assert(r@[k].3 == names@[5 * k + 3]);
            assert(r@[k].4 == names@[5 * k + 4]);
            assert(names@[5 * k]@ == strutil::replaced(dirs@[5 * k]@, '.', '/'));
            assert(names@[5 * k + 1]@ == strutil::replaced(dirs@[5 * k + 1]@, '.', '/'));
            assert(names@[5 * k + 2]@ == strutil::replaced(dirs@[5 * k + 2]@, '.', '/'));
            assert(names@[5 * k + 3]@ == strutil::replaced(dirs@[5 * k + 3]@, '.', '/'));
            assert(names@[5 * k + 4]@ == strutil::replaced(dirs@[5 * k + 4]@, '.', '/'));
        }
    }
    r
}

/// How many repositories of a run had at least one workflow file.
pub open spec fn count_true(s: Seq<bool>) -> int
    decreases s.len(),
{
    if s.len() == 0 {
        0
    } else {
        count_true(s.drop_last()) + (if s.last() {
            1int
        } else {
            0int
        })
    }
}

pub fn count_hits(results: &Vec<bool>) -> (r: usize)
    ensures
        r as int == count_true(results@),
{
    let n = results.len();
    let mut count: usize = 0;
    let mut i: usize = 0;
    proof {
        assert(results@.subrange(0, 0) =~= Seq::<bool>::empty());
    }
    while i < n
        invariant
            n == results@.len(),
            i <= n,
            count <= i,
            count as int == count_true(results@.subrange(0, i as int)),
        decreases n - i,
    {
        let ghost sub = results@.subrange(0, i as int);
        let ghost ext = results@.subrange(0, i + 1);
        proof {
            assert(ext.drop_last() =~= sub);
            assert(ext.last() == results@[i as int]);
        }
        if results[i] {
            count += 1;
        }
        i += 1;
    }
    proof {
        assert(results@.subrange(0, n as int) =~= results@);
    }
    count
}

} // verus!
