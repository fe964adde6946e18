//! A plain directory of test results, without locks: where they stand, and
//! which of them may be used.
use crate::database;
use crate::database::TestResultEntry;
use crate::git::ObjectHash;
use crate::strings;
use crate::test::{ConfigHash, TestCase, TestName, TestResult};
use vstd::prelude::*;

verus! {

/// The results, by the directory in which they are kept.
#[derive(Debug)]
pub struct Database {
    base_dir: String,
}

impl Database {
    /// The directory.
    pub closed spec fn base(&self) -> Seq<char> {
        self.base_dir@
    }

    /// Where the result of a test with the given hash stands.
    pub open spec fn entry_dir(&self, hash: Seq<char>, test_name: Seq<char>) -> Seq<char> {
        strings::path_joined(strings::path_joined(self.base(), hash), test_name)
    }

    /// The results in the given directory.
    pub fn create_or_open(base_dir: &str) -> (r: Self)
        ensures
            r.base() == base_dir@,
    {
        Database { base_dir: String::from_str(base_dir) }
    }

    /// Where the result of a test case stands, below the directory.
    pub fn result_relpath(test_case: &TestCase) -> (r: String)
        ensures
            r@ == database::relpath(*test_case),
    {
        database::Database::result_relpath(test_case)
    }

    fn result_path(&self, hash: &ObjectHash, test_name: &TestName) -> (r: String)
        ensures
            r@ == self.entry_dir(hash@, test_name@),
    {
        strings::join_path(
            strings::join_path(self.base_dir.as_str(), hash.as_str()).as_str(),
            test_name.as_str(),
        )
    }

    /// The file that holds the result of a test with the given hash.
    pub fn json_path(&self, hash: &ObjectHash, test_name: &TestName) -> (r: String)
        ensures
            r@ == strings::path_joined(self.entry_dir(hash@, test_name@), "result.json"@),
    {
        strings::join_path(self.result_path(hash, test_name).as_str(), "result.json")
    }

    /// The result that may be used, of what that file holds (`None` if there is
    /// no such file): one that was made with the same configuration.
    pub fn cached_result(
        entry: Option<TestResultEntry>,
        // Hash of the config that created the test.
        config_hash: &ConfigHash,
    ) -> (r: Option<TestResult>)
        ensures
            r == match entry {
                Some(entry) => if entry.config_hash@ == config_hash@ {
                    Some(entry.result)
                } else {
                    None
                },
                None => None,
            },
    {
        match entry {
            Some(entry) => {
                if entry.config_hash == *config_hash {
                    Some(entry.result)
                } else {
                    // Configuration changed, need to re-run.
                    None
                }
            },
            None => None,
        }
    }

    /// Prepare to create the output directory for a job output, but don't actually create it yet.
    /// It's created once you use one of the methods of the output for writing data.
    pub fn create_output(
        &self,
        hash: &ObjectHash,
        test_name: &TestName,
        // Hash of the config that created the test.
        config_hash: ConfigHash,
    ) -> (r: TestCaseOutput)
        ensures
            r.untouched(),
            r.base() == self.entry_dir(hash@, test_name@),
            r.config_hash() == config_hash@,
    {
        TestCaseOutput::new(self.result_path(hash, test_name), config_hash)
    }
}

/// What has to be done about the directory of an output before it is used.
#[derive(Debug, Clone, Copy, PartialEq, Eq, Structural)]
pub enum DirAction {
    /// It was created before.
    Nothing,
    /// Create it.
    Create,
    /// Delete what is there, to avoid confusion from partially-overwritten
    /// entries, then create it.
    Replace,
}

/// Output for an individual commit.
#[derive(Debug)]
pub struct TestCaseOutput {
    base_dir: String,
    base_dir_created: bool,
    stdout_opened: bool,
    stderr_opened: bool,
    status_written: bool,
    config_hash: ConfigHash,
}

impl TestCaseOutput {
    /// The directory.
    pub closed spec fn base(&self) -> Seq<char> {
        self.base_dir@
    }

    /// The hash of the configuration that the result will be stored with.
    pub closed spec fn config_hash(&self) -> Seq<char> {
        self.config_hash@
    }

    /// Whether the directory was created, as far as is known.
    pub closed spec fn created(&self) -> bool {
        self.base_dir_created
    }

    /// What was used so far: the standard output, the error output and the
    /// result.
    pub closed spec fn used(&self) -> (bool, bool, bool) {
        (self.stdout_opened, self.stderr_opened, self.status_written)
    }

    /// Nothing was done yet.
    pub open spec fn untouched(&self) -> bool {
        !self.created() && self.used() == (false, false, false)
    }

    pub fn new(base_dir: String, config_hash: ConfigHash) -> (r: Self)
        ensures
            r.untouched(),
            r.base() == base_dir@,
            r.config_hash() == config_hash@,
    {
        TestCaseOutput {
            base_dir,
            base_dir_created: false,
            stdout_opened: false,
            stderr_opened: false,
            status_written: false,
            config_hash,
        }
    }

    /// What to do about the directory, given whether there is something in its
    /// place.
    pub open spec fn dir_action(&self, exists: bool) -> DirAction {
        if self.created() {
            DirAction::Nothing
        } else if exists {
            DirAction::Replace
        } else {
            DirAction::Create
        }
    }

    fn get_base_dir(&mut self, exists: bool) -> (r: DirAction)
        ensures
            r == old(self).dir_action(exists),
            final(self).created(),
            final(self).base() == old(self).base(),
            final(self).config_hash() == old(self).config_hash(),
            final(self).used() == old(self).used(),
    {
        if self.base_dir_created {
            return DirAction::Nothing;
        }
        self.base_dir_created = true;
        if exists {
            DirAction::Replace
        } else {
            DirAction::Create
        }
    }

    /// Takes note that what was to be done about the directory has failed, so
    /// that it is done before the next use.
    pub fn dir_failed(&mut self)
        ensures
            !final(self).created(),
            final(self).base() == old(self).base(),
            final(self).config_hash() == old(self).config_hash(),
            final(self).used() == old(self).used(),
    {
        self.base_dir_created = false;
    }

    /// Where to write the standard output, and what to do about the directory
    /// first. To be asked for once.
    pub fn stdout(&mut self, exists: bool) -> (r: (DirAction, String))
        requires
            !old(self).used().0,
        ensures
            r.0 == old(self).dir_action(exists),
            r.1@ == strings::path_joined(old(self).base(), "stdout.txt"@),
            final(self).created(),
            final(self).used() == (true, old(self).used().1, old(self).used().2),
            final(self).base() == old(self).base(),
            final(self).config_hash() == old(self).config_hash(),
    {
        self.stdout_opened = true;
        let action = self.get_base_dir(exists);
        (action, strings::join_path(self.base_dir.as_str(), "stdout.txt"))
    }

    /// Where to write the error output, and what to do about the directory
    /// first. To be asked for once.
    pub fn stderr(&mut self, exists: bool) -> (r: (DirAction, String))
        requires
            !old(self).used().1,
        ensures
            r.0 == old(self).dir_action(exists),
            r.1@ == strings::path_joined(old(self).base(), "stderr.txt"@),
            final(self).created(),
            final(self).used() == (old(self).used().0, true, old(self).used().2),
            final(self).base() == old(self).base(),
            final(self).config_hash() == old(self).config_hash(),
    {
        self.stderr_opened = true;
        let action = self.get_base_dir(exists);
        (action, strings::join_path(self.base_dir.as_str(), "stderr.txt"))
    }

    /// Where to write the result, what to write there, and what to do about
    /// the directory first. To be asked for once.
    pub fn set_result(&mut self, result: &TestResult, exists: bool) -> (r: (
        DirAction,
        String,
        TestResultEntry,
    ))
        requires
            !old(self).used().2,
        ensures
            r.0 == old(self).dir_action(exists),
            r.1@ == strings::path_joined(old(self).base(), "result.json"@),
            r.2.config_hash@ == old(self).config_hash(),
            r.2.result == *result,
            final(self).created(),
            final(self).used() == (old(self).used().0, old(self).used().1, true),
            final(self).base() == old(self).base(),
            final(self).config_hash() == old(self).config_hash(),
    {
        self.status_written = true;
        let action = self.get_base_dir(exists);
        let entry = TestResultEntry {
            config_hash: self.config_hash.clone(),
            result: result.clone(),
        };
        (action, strings::join_path(self.base_dir.as_str(), "result.json"), entry)
    }
}

/// Each entry has a directory of its own below that of the database: its hash
/// comes first, then the name of its test.
pub proof fn lemma_entry_dir(db: Database, hash: Seq<char>, test_name: Seq<char>)
    requires
        db.base().len() > 0,
        db.base().last() != '/',
        hash.len() > 0,
        hash.first() != '/',
        hash.last() != '/',
        test_name.len() > 0,
        test_name.first() != '/',
    ensures
        db.entry_dir(hash, test_name) == db.base() + "/"@ + hash + "/"@ + test_name,
{
    strings::lemma_path_joined(db.base(), hash);
    let dir = strings::path_joined(db.base(), hash);
    assert(dir.last() == hash.last());
    strings::lemma_path_joined(dir, test_name);
}

/// What was in the place of an output before is not mixed with it: it is
/// replaced before anything is written, and only once.
pub proof fn lemma_output_starts_empty(output: TestCaseOutput, exists: bool)
    ensures
        output.dir_action(exists) is Replace <==> exists && !output.created(),
        output.dir_action(exists) is Create <==> !exists && !output.created(),
        output.dir_action(exists) is Nothing <==> output.created(),
{
}

} // verus!
