//! The persistent crawl state: the durable cursor, the completion ledger,
//! and the result sink. This module owns the in-memory image of each and
//! computes the exact bytes the filesystem edge must write; reads come in
//! as whole file contents.
use crate::ledger;
use crate::sink;
use crate::state;
use crate::strutil;
use crate::{CsvRepo, Repo};
use vstd::prelude::*;

verus! {

/// Failures of the durable crawl state. These halt the run: there is no
/// safe partial-write recovery for the cursor or the ledger.
#[derive(Debug)]
pub enum Error {
    /// the cursor file held something its format cannot have produced
    Serde,
    /// the result sink held something its format cannot have produced
    Csv,
}

/// The ledger holds `id` already.
pub open spec fn ledger_contains(ids: Seq<String>, id: Seq<char>) -> bool {
    exists|i: int| 0 <= i < ids.len() && #[trigger] ids[i]@ == id
}

/// The rows of `rows` whose ids are not yet ledgered, in order.
pub open spec fn keep_unfetched(ids: Seq<String>, rows: Seq<CsvRepo>) -> Seq<CsvRepo>
    decreases rows.len(),
{
    if rows.len() == 0 {
        Seq::empty()
    } else {
        keep_unfetched(ids, rows.drop_last()) + (if ledger_contains(ids, rows.last().id@) {
            Seq::empty()
        } else {
            seq![rows.last()]
        })
    }
}

/// A ledgered id never reappears in the harvest-only work list, so a
/// resumed run plans no work — and issues no call — for it.
pub proof fn lemma_ledgered_skipped(ids: Seq<String>, rows: Seq<CsvRepo>, x: Seq<char>)
    requires
        ledger_contains(ids, x),
    ensures
        forall|k: int|
            0 <= k < keep_unfetched(ids, rows).len() ==> #[trigger] keep_unfetched(ids, rows)[k].id@
                != x,
    decreases rows.len(),
{
    if rows.len() > 0 {
        lemma_ledgered_skipped(ids, rows.drop_last(), x);
        let kept = keep_unfetched(ids, rows);
        let shorter = keep_unfetched(ids, rows.drop_last());
        assert forall|k: int| 0 <= k < kept.len() implies #[trigger] kept[k].id@ != x by {
            if k < shorter.len() {
                assert(kept[k] == shorter[k]);
            } else {
                assert(kept[k] == rows.last());
            }
        }
    }
}

/// The in-memory image of the crawl state, plus where each durable file
/// lives under the data directory.
pub struct Data {
    pub pom_dir: String,
    pub github_csv: String,
    pub fetched_path: String,
    pub state_path: String,
    pub last_id: usize,
    pub fetched_ids: Vec<String>,
    pub csv_exists: bool,
}

impl Data {
    /// Ledger entries are single lines; the ledger file format cannot hold
    /// anything else.
    pub open spec fn wf(&self) -> bool {
        forall|i: int|
            0 <= i < self.fetched_ids@.len() ==> ledger::nl_free(#[trigger] self.fetched_ids@[i]@)
    }

    /// Builds the state image from the durable files read at startup:
    /// the cursor file if it exists, the whole completion ledger, and
    /// whether the result sink file already exists.
    pub fn new(
        base_dir: &str,
        state_content: Option<&str>,
        fetched_content: &str,
        csv_exists: bool,
    ) -> (r: Result<Data, Error>)
        ensures
            match r {
                Ok(d) => {
                    &&& d.wf()
                    &&& match state_content {
                        Some(s) => s@ == state::state_json(d.last_id as nat),
                        None => d.last_id == 0,
                    }
                    &&& d.fetched_ids@.map_values(|id: String| id@) == ledger::split_lines(
                        fetched_content@,
                    )
                    &&& d.csv_exists == csv_exists
                    &&& d.pom_dir@ == base_dir@ + "/poms"@
                    &&& d.github_csv@ == base_dir@ + "/github.csv"@
                    &&& d.fetched_path@ == base_dir@ + "/fetched"@
                    &&& d.state_path@ == base_dir@ + "/state.json"@
                },
                Err(e) => e == Error::Serde && match state_content {
                    Some(s) => forall|v: nat| v <= usize::MAX ==> s@ != state::state_json(v),
                    None => false,
                },
            },
    {
        let last_id: usize = match state_content {
            Some(s) => {
                match state::parse_state(s) {
                    Some(v) => v,
                    None => {
                        return Err(Error::Serde);
                    },
                }
            },
            None => 0,
        };
        let fetched_ids = ledger::parse_ledger(fetched_content);
        proof {
            ledger::lemma_split_lines_no_nl(fetched_content@);
            let views = fetched_ids@.map_values(|id: String| id@);
            assert forall|i: int| 0 <= i < fetched_ids@.len() implies ledger::nl_free(
                #[trigger] fetched_ids@[i]@,
            ) by {
                assert(views[i] == fetched_ids@[i]@);
                assert(forall|j: int|
                    0 <= j < views[i].len() ==> #[trigger] ledger::split_lines(
                        fetched_content@,
                    )[i][j] != '\n');
            }
        }
        let mut pom_dir = base_dir.to_owned();
        pom_dir.append("/poms");
        let mut github_csv = base_dir.to_owned();
        github_csv.append("/github.csv");
        let mut fetched_path = base_dir.to_owned();
        fetched_path.append("/fetched");
        let mut state_path = base_dir.to_owned();
        state_path.append("/state.json");
        Ok(
            Data {
                pom_dir,
                github_csv,
                fetched_path,
                state_path,
                last_id,
                fetched_ids,
                csv_exists,
            },
        )
    }

    /// Where one harvested file of a repository is stored on disk.
    pub fn get_pom_path(&self, repo: &Repo, path: &str) -> (r: String)
        ensures
            r@ == self.pom_dir@ + "/"@ + strutil::replaced(repo.name@, '/', '.') + "/"@ + path@,
    {
        let mut out = self.pom_dir.clone();
        out.append("/");
        let sanitized = repo.path();
        out.append(sanitized.as_str());
        out.append("/");
        out.append(path);
        out
    }

    /// The cursor, served from memory.
    pub fn get_last_id(&self) -> (r: Result<usize, Error>)
        ensures
            r == Ok::<usize, Error>(self.last_id),
    {
        Ok(self.last_id)
    }

    /// Advances the in-memory cursor and returns the full new content of
    /// the cursor file, which the edge rewrites wholesale.
    pub fn set_last_id(&mut self, id: usize) -> (content: String)
        ensures
            final(self).last_id == id,
            final(self).fetched_ids == old(self).fetched_ids,
            final(self).csv_exists == old(self).csv_exists,
            final(self).pom_dir == old(self).pom_dir,
            final(self).github_csv == old(self).github_csv,
            final(self).fetched_path == old(self).fetched_path,
            final(self).state_path == old(self).state_path,
            content@ == state::state_json(id as nat),
            old(self).wf() ==> final(self).wf(),
    {
        self.last_id = id;
        state::render_state(id)
    }

    /// Whether this repository's harvest already concluded in some run.
    pub fn is_fetched(&self, id: &String) -> (r: bool)
        ensures
            r == ledger_contains(self.fetched_ids@, id@),
    {
        let n = self.fetched_ids.len();
        let mut i: usize = 0;
        while i < n
            invariant
                n == self.fetched_ids@.len(),
                i <= n,
                forall|k: int| 0 <= k < i ==> #[trigger] self.fetched_ids@[k]@ != id@,
            decreases n - i,
        {
            if self.fetched_ids[i].eq(id) {
                return true;
            }
            i += 1;
        }
        false
    }

    /// Records a concluded harvest in the in-memory ledger and returns the
    /// line the edge appends to the ledger file.
    pub fn mark_fetched(&mut self, repo: &Repo) -> (line: String)
        requires
            old(self).wf(),
            ledger::nl_free(repo.id@),
        ensures
            final(self).wf(),
            final(self).fetched_ids@ == old(self).fetched_ids@.push(repo.id),
            final(self).last_id == old(self).last_id,
            final(self).csv_exists == old(self).csv_exists,
            line@ == ledger::ledger_line(repo.id@),
    {
        let ghost before = self.fetched_ids@;
        self.fetched_ids.push(repo.id.clone());
        proof {
            assert forall|i: int| 0 <= i < self.fetched_ids@.len() implies ledger::nl_free(
                #[trigger] self.fetched_ids@[i]@,
            ) by {
                if i < before.len() {
                    assert(self.fetched_ids@[i] == before[i]);
                } else {
                    assert(self.fetched_ids@[i]@ == repo.id@);
                }
            }
        }
        let mut line = repo.id.clone();
        line.append("\n");
        proof {
            reveal_strlit("\n");
            assert(line@ =~= ledger::ledger_line(repo.id@));
        }
        line
    }

    /// Appends one result row: the returned bytes carry the header exactly
    /// when this is the sink file's first write.
    pub fn store_repo(&mut self, repo: CsvRepo) -> (out: String)
        requires
            sink::line_free(repo.id@),
            sink::line_free(repo.name@),
        ensures
            final(self).csv_exists,
            final(self).last_id == old(self).last_id,
            final(self).fetched_ids == old(self).fetched_ids,
            out@ == sink::sink_append(
                old(self).csv_exists,
                sink::csv_row(repo.id@, repo.name@, repo.has_pom),
            ),
            old(self).wf() ==> final(self).wf(),
    {
        let row = sink::render_row(&repo);
        if !self.csv_exists {
            self.csv_exists = true;
            let mut out = sink::render_header();
            out.append(row.as_str());
            out
        } else {
            row
        }
    }

    /// The rows not yet ledgered, in sink order: the work list of a
    /// harvest-only resume.
    pub fn non_fetched(&self, rows: Vec<CsvRepo>) -> (r: Vec<CsvRepo>)
        ensures
            r@ == keep_unfetched(self.fetched_ids@, rows@),
    {
        let n = rows.len();
        let mut out: Vec<CsvRepo> = Vec::new();
        let mut i: usize = 0;
        let mut rows = rows;
        proof {
            assert(rows@.subrange(0, 0) =~= Seq::<CsvRepo>::empty());
        }
        while i < n
            invariant
                n == rows@.len(),
                i <= n,
                out@ == keep_unfetched(self.fetched_ids@, rows@.subrange(0, i as int)),
            decreases n - i,
        {
            let ghost sub = rows@.subrange(0, i as int);
            let ghost ext = rows@.subrange(0, i + 1);
            proof {
                assert(ext.drop_last() =~= sub);
                assert(ext.last() == rows@[i as int]);
            }
            let rec = rows[i].clone();
            if !self.is_fetched(&rec.id) {
                out.push(rec);
                proof {
                    assert(out@ =~= keep_unfetched(self.fetched_ids@, sub).push(rows@[i as int]));
                    assert(keep_unfetched(self.fetched_ids@, ext) =~= keep_unfetched(
                        self.fetched_ids@,
                        sub,
                    ).push(rows@[i as int]));
                }
            } else {
                proof {
                    assert(keep_unfetched(self.fetched_ids@, ext) =~= keep_unfetched(
                        self.fetched_ids@,
                        sub,
                    ));
                }
            }
            i += 1;
        }
        proof {
            assert(rows@.subrange(0, n as int) =~= rows@);
        }
        out
    }

    /// Parses the sink file and keeps the rows not yet ledgered: what a
    /// harvest-only run still has to do.
    pub fn get_non_fetched_repos(&self, csv_content: &str) -> (r: Result<Vec<CsvRepo>, Error>)
        ensures
            match r {
                Ok(repos) => exists|rows: Seq<CsvRepo>|
                    csv_content@ == sink::csv_file_of(rows) && repos@ == #[trigger] keep_unfetched(
                        self.fetched_ids@,
                        rows,
                    ),
                Err(e) => e == Error::Csv && forall|rows: Seq<CsvRepo>|
                    sink::wf_rows(rows) ==> csv_content@ != #[trigger] sink::csv_file_of(rows),
            },
    {
        match sink::parse_csv(csv_content) {
            Some(rows) => {
                let ghost parsed = rows@;
                let kept = self.non_fetched(rows);
                proof {
                    assert(csv_content@ == sink::csv_file_of(parsed) && kept@ == keep_unfetched(
                        self.fetched_ids@,
                        parsed,
                    ));
                }
                Ok(kept)
            },
            None => Err(Error::Csv),
        }
    }

    /// Reconciles the sink's completion flags against the set of on-disk
    /// project directories: a row gains `has_pom` when its sanitized name
    /// is among them, and never loses it.
    pub fn consolidate_rows(&self, rows: Vec<CsvRepo>, dirs: &Vec<String>) -> (r: Vec<CsvRepo>)
        ensures
            r@.len() == rows@.len(),
            forall|i: int|
                0 <= i < rows@.len() ==> #[trigger] r@[i].id@ == rows@[i].id@ && r@[i].name@
                    == rows@[i].name@ && r@[i].has_pom == (rows@[i].has_pom || dirs_contain(
                    dirs@,
                    strutil::replaced(rows@[i].name@, '/', '.'),
                )),
    {
        let n = rows.len();
        let mut out: Vec<CsvRepo> = Vec::new();
        let mut i: usize = 0;
        let rows = rows;
        while i < n
            invariant
                n == rows@.len(),
                i <= n,
                out@.len() == i,
                forall|k: int|
                    0 <= k < i ==> #[trigger] out@[k].id@ == rows@[k].id@ && out@[k].name@
                        == rows@[k].name@ && out@[k].has_pom == (rows@[k].has_pom || dirs_contain(
                        dirs@,
                        strutil::replaced(rows@[k].name@, '/', '.'),
                    )),
            decreases n - i,
        {
            let rec = rows[i].clone();
            let sanitized = strutil::sanitize_name(rec.name.as_str());
            let found = contains_string(dirs, &sanitized);
            out.push(
                CsvRepo { id: rec.id, name: rec.name, has_pom: rec.has_pom || found },
            );
            i += 1;
        }
        out
    }
}

/// Some directory name equals `s`.
pub open spec fn dirs_contain(dirs: Seq<String>, s: Seq<char>) -> bool {
    exists|i: int| 0 <= i < dirs.len() && #[trigger] dirs[i]@ == s
}

fn contains_string(dirs: &Vec<String>, s: &String) -> (r: bool)
    ensures
        r == dirs_contain(dirs@, s@),
{
    let n = dirs.len();
    let mut i: usize = 0;
    while i < n
        invariant
            n == dirs@.len(),
            i <= n,
            forall|k: int| 0 <= k < i ==> #[trigger] dirs@[k]@ != s@,
        decreases n - i,
    {
        if dirs[i].eq(s) {
            return true;
        }
        i += 1;
    }
    false
}

} // verus!
