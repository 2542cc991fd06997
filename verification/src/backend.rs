//! Remote stores of fat objects.
use crate::error::FatError;
use crate::names::NameSet;
use crate::paths::{
    is_extensible, is_plain_name, path_display, path_from, path_join, path_joined, path_of,
    path_parts, path_text, PathPart,
};
use crate::text::{
    before_first, contains_doubled, has_doubled, law_before_first, law_has_doubled,
    lemma_encoded_ascii_byte, optional_text, same_text, split_first, texts,
};
use std::path::PathBuf;
use vstd::prelude::*;
use vstd::utf8::*;

verus! {

/// One file to copy from directory to directory.
pub struct CopyJob {
    pub src: PathBuf,
    pub dst: PathBuf,
    /// Whether the copy is made read-only.
    pub set_readonly: bool,
}

/// What is to be done about a file, once it is known whether its copy exists.
#[derive(Debug, Clone, Copy, PartialEq, Eq, Structural)]
pub enum CopyAction {
    /// The copy exists and stays as it is.
    Skip,
    /// The file is copied.
    Copy,
    /// The file is copied, and the copy is made read-only.
    CopyReadOnly,
}

impl CopyJob {
    /// The job copies the object `name` from one directory to another.
    pub open spec fn copies(
        self,
        from: PathBuf,
        to: PathBuf,
        name: Seq<char>,
        set_readonly: bool,
    ) -> bool {
        &&& self.src == path_joined(from, name)
        &&& self.dst == path_joined(to, name)
        &&& self.set_readonly == set_readonly
        &&& is_plain_name(name) && is_extensible(from) ==> path_parts(self.src) == path_parts(
            from,
        ).push(PathPart::Name(encode_utf8(name)))
        &&& is_plain_name(name) && is_extensible(to) ==> path_parts(self.dst) == path_parts(
            to,
        ).push(PathPart::Name(encode_utf8(name)))
    }

    /// What to do, given whether the copy exists. An existing copy is never written over.
    pub open spec fn acts(self, dst_exists: bool) -> CopyAction {
        if dst_exists {
            CopyAction::Skip
        } else if self.set_readonly {
            CopyAction::CopyReadOnly
        } else {
            CopyAction::Copy
        }
    }

    /// Decides what to do, given whether the copy exists.
    pub fn action(&self, dst_exists: bool) -> (res: CopyAction)
        ensures
            res == self.acts(dst_exists),
    {
        if dst_exists {
            CopyAction::Skip
        } else if self.set_readonly {
            CopyAction::CopyReadOnly
        } else {
            CopyAction::Copy
        }
    }
}

/// A run of rsync: its arguments, and what it reads from its standard input.
pub struct RsyncRun {
    pub args: Vec<String>,
    pub stdin: Vec<u8>,
}

/// The work of a transfer.
pub enum Transfer {
    /// There is nothing to transfer, which is a success.
    Nothing,
    /// Files are copied one after the other, after the directory has been made where one is
    /// named.
    Copy { create_dir: Option<PathBuf>, jobs: Vec<CopyJob> },
    /// rsync transfers the files. Its exit status tells whether it succeeded.
    Rsync(RsyncRun),
}

/// The jobs copy the named objects, in their order, from one directory to another.
pub open spec fn copies_all(
    jobs: Seq<CopyJob>,
    from: PathBuf,
    to: PathBuf,
    names: Seq<Seq<char>>,
    set_readonly: bool,
) -> bool {
    &&& jobs.len() == names.len()
    &&& forall|i: int|
        0 <= i < jobs.len() ==> (#[trigger] jobs[i]).copies(from, to, names[i], set_readonly)
}

/// A store that fat objects are pushed to and pulled from.
pub trait Backend {
    /// What a transfer of the named objects consists of. The value of `GIT_SSH` is handed in
    /// where that variable is set.
    spec fn transfers(
        &self,
        push: bool,
        names: Seq<Seq<char>>,
        git_ssh: Option<Seq<char>>,
        transfer: Transfer,
    ) -> bool;

    /// Uploads the given set of fat objects, identified by digest, to the remote.
    fn push_files(&self, files: &NameSet, git_ssh: &Option<String>) -> (res: Transfer)
        requires
            files.wf(),
        ensures
            self.transfers(true, files.order(), optional_text(*git_ssh), res),
    ;

    /// Downloads the given set of fat objects from the remote into the local cache.
    fn pull_files(&self, files: &NameSet, git_ssh: &Option<String>) -> (res: Transfer)
        requires
            files.wf(),
        ensures
            self.transfers(false, files.order(), optional_text(*git_ssh), res),
    ;
}

/// A store in a local directory.
pub struct CopyBackend {
    remote: PathBuf,
    base_dir: PathBuf,
}

impl CopyBackend {
    /// The directory that objects are copied to and from.
    pub closed spec fn remote(self) -> PathBuf {
        self.remote
    }

    /// The local object directory.
    pub closed spec fn base_dir(self) -> PathBuf {
        self.base_dir
    }

    /// A store in the directory `remote`, given whether there is such a directory.
    pub fn new(base_dir: PathBuf, remote: &str, remote_is_dir: bool) -> (res: Result<
        CopyBackend,
        FatError,
    >)
        ensures
            match res {
                Ok(backend) => remote_is_dir && backend.remote() == path_of(remote@)
                    && backend.base_dir() == base_dir,
                Err(error) => !remote_is_dir && error.is_not_found(
                    "copy backend remote is not a directory: "@ + remote@,
                ),
            },
    {
        if !remote_is_dir {
            return Err(
                FatError::NotFound(
                    "copy backend remote is not a directory: ".to_owned().concat(remote),
                ),
            );
        }
        Ok(CopyBackend { remote: path_from(remote), base_dir })
    }
}

/// Lists the jobs that copy the named objects from one directory to another.
fn copy_jobs(from: &PathBuf, to: &PathBuf, files: &NameSet, set_readonly: bool) -> (res: Vec<
    CopyJob,
>)
    ensures
        copies_all(res@, *from, *to, files.order(), set_readonly),
{
    let mut jobs: Vec<CopyJob> = Vec::new();
    let items = files.items();
    let mut i: usize = 0;
    while i < items.len()
        invariant
            i <= items@.len(),
            texts(items@) == files.order(),
            copies_all(jobs@, *from, *to, files.order().take(i as int), set_readonly),
        decreases items@.len() - i,
    {
        let name = items[i].as_str();
        assert(files.order()[i as int] == name@);
        jobs.push(CopyJob { src: path_join(from, name), dst: path_join(to, name), set_readonly });
        i = i + 1;
    }
    assert(files.order().take(items@.len() as int) =~= files.order());
    jobs
}

impl Backend for CopyBackend {
    /// Each object is copied to the other directory. A push makes the remote directory first;
    /// a pull makes its copies read-only.
    open spec fn transfers(
        &self,
        push: bool,
        names: Seq<Seq<char>>,
        git_ssh: Option<Seq<char>>,
        transfer: Transfer,
    ) -> bool {
        match transfer {
            Transfer::Copy { create_dir, jobs } => if push {
                &&& create_dir == Some(self.remote())
                &&& copies_all(jobs@, self.base_dir(), self.remote(), names, false)
            } else {
                &&& create_dir is None
                &&& copies_all(jobs@, self.remote(), self.base_dir(), names, true)
            },
            _ => false,
        }
    }

    fn push_files(&self, files: &NameSet, git_ssh: &Option<String>) -> (res: Transfer) {
        Transfer::Copy {
            create_dir: Some(self.remote.clone()),
            jobs: copy_jobs(&self.base_dir, &self.remote, files, false),
        }
    }

    fn pull_files(&self, files: &NameSet, git_ssh: &Option<String>) -> (res: Transfer) {
        Transfer::Copy {
            create_dir: None,
            jobs: copy_jobs(&self.remote, &self.base_dir, files, true),
        }
    }
}

/// A store that rsync reaches, over SSH or at an rsync daemon.
pub struct RsyncBackend {
    remote_url: String,
    ssh_user: Option<String>,
    ssh_port: Option<String>,
    base_dir: PathBuf,
    is_rsyncd: bool,
}

/// The command by which rsync reaches a remote shell.
pub open spec fn remote_shell(
    git_ssh: Option<Seq<char>>,
    user: Option<Seq<char>>,
    port: Option<Seq<char>>,
) -> Seq<char> {
    let program = match git_ssh {
        Some(program) => program,
        None => "ssh"@,
    };
    let login = match user {
        Some(user) => " -l "@ + user,
        None => Seq::empty(),
    };
    let address = match port {
        Some(port) => " -p "@ + port,
        None => Seq::empty(),
    };
    program + login + address
}

/// The NUL-terminated list of names, as rsync reads it with `--from0`.
pub open spec fn nul_terminated(names: Seq<Seq<char>>) -> Seq<u8>
    decreases names.len(),
{
    if names.len() == 0 {
        Seq::empty()
    } else {
        nul_terminated(names.drop_last()) + encode_utf8(names.last()) + seq![0u8]
    }
}

/// Writes the NUL-terminated list of names.
fn file_list(files: &NameSet) -> (res: Vec<u8>)
    ensures
        res@ == nul_terminated(files.order()),
{
    let mut list: Vec<u8> = Vec::new();
    let items = files.items();
    let mut i: usize = 0;
    while i < items.len()
        invariant
            i <= items@.len(),
            texts(items@) == files.order(),
            list@ == nul_terminated(files.order().take(i as int)),
        decreases items@.len() - i,
    {
        let ghost before = list@;
        let name = items[i].as_str().as_bytes();
        list.extend_from_slice(name);
        assert(list@ =~= before + name@);
        list.push(0u8);
        i = i + 1;
        proof {
            let names = files.order().take(i as int);
            assert(files.order()[i - 1] == items@[i - 1]@);
            assert(names.drop_last() =~= files.order().take(i - 1));
            assert(list@ =~= nul_terminated(names));
        }
    }
    assert(files.order().take(items@.len() as int) =~= files.order());
    list
}

impl RsyncBackend {
    /// The remote address.
    pub closed spec fn remote_url(self) -> Seq<char> {
        self.remote_url@
    }

    /// The user to log in as, where one is configured.
    pub closed spec fn ssh_user(self) -> Option<Seq<char>> {
        optional_text(self.ssh_user)
    }

    /// The port to connect to, where one is configured.
    pub closed spec fn ssh_port(self) -> Option<Seq<char>> {
        optional_text(self.ssh_port)
    }

    /// The local object directory.
    pub closed spec fn base_dir(self) -> PathBuf {
        self.base_dir
    }

    /// Whether the remote is an rsync daemon.
    pub closed spec fn is_rsyncd(self) -> bool {
        self.is_rsyncd
    }

    /// The remote is an rsync daemon exactly where its address holds a double colon.
    pub open spec fn wf(self) -> bool {
        self.is_rsyncd() == has_doubled(self.remote_url(), ':')
    }

    /// A store at `remote_url`.
    pub fn new(
        base_dir: PathBuf,
        remote_url: &str,
        ssh_user: Option<String>,
        ssh_port: Option<String>,
    ) -> (res: RsyncBackend)
        ensures
            res.wf(),
            res.base_dir() == base_dir,
            res.remote_url() == remote_url@,
            res.ssh_user() == optional_text(ssh_user),
            res.ssh_port() == optional_text(ssh_port),
            res.is_rsyncd() == has_doubled(remote_url@, ':'),
    {
        let is_rsyncd = contains_doubled(remote_url, ':');
        RsyncBackend { remote_url: remote_url.to_owned(), ssh_user, ssh_port, base_dir, is_rsyncd }
    }

    /// The arguments of rsync for a push or a pull.
    pub open spec fn args(self, push: bool, git_ssh: Option<Seq<char>>) -> Seq<Seq<char>> {
        let local = path_text(self.base_dir()) + "/"@;
        let remote = self.remote_url() + "/"@;
        let common = seq![
            "-s"@,
            "--progress"@,
            "--ignore-existing"@,
            "--from0"@,
            "--files-from=-"@,
            if push {
                local
            } else {
                remote
            },
            if push {
                remote
            } else {
                local
            },
        ];
        if self.is_rsyncd() {
            common
        } else {
            common.push("--rsh="@ + remote_shell(git_ssh, self.ssh_user(), self.ssh_port()))
        }
    }

    /// Builds the arguments of rsync for a push or a pull.
    pub fn build_command(&self, push: bool, git_ssh: &Option<String>) -> (res: Vec<String>)
        ensures
            texts(res@) == self.args(push, optional_text(*git_ssh)),
    {
        let local = path_display(&self.base_dir).concat("/");
        let remote = self.remote_url.clone().concat("/");
        let mut args: Vec<String> = Vec::new();
        args.push("-s".to_owned());
        args.push("--progress".to_owned());
        args.push("--ignore-existing".to_owned());
        args.push("--from0".to_owned());
        args.push("--files-from=-".to_owned());
        if push {
            args.push(local);
            args.push(remote);
        } else {
            args.push(remote);
            args.push(local);
        }
        if !self.is_rsyncd {
            let mut rsh: String = match git_ssh {
                Some(program) => program.clone(),
                None => "ssh".to_owned(),
            };
            if let Some(user) = &self.ssh_user {
                rsh.append(" -l ");
                rsh.append(user.as_str());
            }
            if let Some(port) = &self.ssh_port {
                rsh.append(" -p ");
                rsh.append(port.as_str());
            }
            assert(rsh@ =~= remote_shell(optional_text(*git_ssh), self.ssh_user(), self.ssh_port()));
            args.push("--rsh=".to_owned().concat(rsh.as_str()));
        }
        assert(texts(args@) =~= self.args(push, optional_text(*git_ssh)));
        args
    }

    /// The transfer of a set of objects.
    fn transfer(&self, push: bool, files: &NameSet, git_ssh: &Option<String>) -> (res: Transfer)
        requires
            files.wf(),
        ensures
            self.transfers(push, files.order(), optional_text(*git_ssh), res),
    {
        if files.is_empty() {
            return Transfer::Nothing;
        }
        Transfer::Rsync(
            RsyncRun { args: self.build_command(push, git_ssh), stdin: file_list(files) },
        )
    }
}

impl Backend for RsyncBackend {
    /// rsync is run unless there is nothing to transfer, and is told the names through its
    /// standard input.
    open spec fn transfers(
        &self,
        push: bool,
        names: Seq<Seq<char>>,
        git_ssh: Option<Seq<char>>,
        transfer: Transfer,
    ) -> bool {
        match transfer {
            Transfer::Nothing => names.len() == 0,
            Transfer::Rsync(run) => {
                &&& names.len() > 0
                &&& texts(run.args@) == self.args(push, git_ssh)
                &&& run.stdin@ == nul_terminated(names)
            },
            _ => false,
        }
    }

    fn push_files(&self, files: &NameSet, git_ssh: &Option<String>) -> (res: Transfer) {
        self.transfer(true, files, git_ssh)
    }

    fn pull_files(&self, files: &NameSet, git_ssh: &Option<String>) -> (res: Transfer) {
        self.transfer(false, files, git_ssh)
    }
}

/// A store as the configuration describes it.
pub enum LoadedBackend {
    Copy(CopyBackend),
    Rsync(RsyncBackend),
}

impl Backend for LoadedBackend {
    open spec fn transfers(
        &self,
        push: bool,
        names: Seq<Seq<char>>,
        git_ssh: Option<Seq<char>>,
        transfer: Transfer,
    ) -> bool {
        match self {
            LoadedBackend::Copy(backend) => backend.transfers(push, names, git_ssh, transfer),
            LoadedBackend::Rsync(backend) => backend.transfers(push, names, git_ssh, transfer),
        }
    }

    fn push_files(&self, files: &NameSet, git_ssh: &Option<String>) -> (res: Transfer) {
        match self {
            LoadedBackend::Copy(backend) => backend.push_files(files, git_ssh),
            LoadedBackend::Rsync(backend) => backend.push_files(files, git_ssh),
        }
    }

    fn pull_files(&self, files: &NameSet, git_ssh: &Option<String>) -> (res: Transfer) {
        match self {
            LoadedBackend::Copy(backend) => backend.pull_files(files, git_ssh),
            LoadedBackend::Rsync(backend) => backend.pull_files(files, git_ssh),
        }
    }
}

/// The first section of a configuration, given the names of its entries in their order. The
/// section of an entry is its name up to the first dot. An entry whose name is no text is
/// passed over.
pub open spec fn first_section(entries: Seq<Option<String>>) -> Option<Seq<char>>
    decreases entries.len(),
{
    if entries.len() == 0 {
        None
    } else {
        match entries[0] {
            Some(name) => Some(before_first(name@, '.')),
            None => first_section(entries.drop_first()),
        }
    }
}

/// Chooses the section that describes the store: the one that is asked for by name, or else
/// the first one in the configuration.
pub fn select_section(
    name: Option<&str>,
    entries: &Vec<Option<String>>,
    config_path: &PathBuf,
) -> (res: Result<String, FatError>)
    ensures
        match name {
            Some(section) => res is Ok && res->Ok_0@ == section@,
            None => match first_section(entries@) {
                Some(section) => res is Ok && res->Ok_0@ == section,
                None => res is Err && res->Err_0.is_not_found(
                    "no backend configuration found in "@ + path_text(*config_path),
                ),
            },
        },
{
    if let Some(section) = name {
        return Ok(section.to_owned());
    }
    assert(entries@.skip(0) =~= entries@);
    let mut i: usize = 0;
    while i < entries.len()
        invariant
            i <= entries@.len(),
            name is None,
            first_section(entries@) == first_section(entries@.skip(i as int)),
        decreases entries@.len() - i,
    {
        let ghost rest = entries@.skip(i as int);
        assert(rest.drop_first() =~= entries@.skip(i + 1));
        if let Some(entry) = &entries[i] {
            return Ok(split_first(entry.as_str(), '.'));
        }
        i = i + 1;
    }
    Err(
        FatError::NotFound(
            "no backend configuration found in ".to_owned().concat(
                path_display(config_path).as_str(),
            ),
        ),
    )
}

/// The names of the variables that describe a store.
pub struct BackendKeys {
    /// The address of the store.
    pub remote: String,
    /// The user to log in as.
    pub ssh_user: String,
    /// The port to connect to.
    pub ssh_port: String,
}

/// The names of the variables that describe the store of a section.
pub fn backend_keys(section: &str) -> (res: BackendKeys)
    ensures
        res.remote@ == section@ + ".remote"@,
        res.ssh_user@ == section@ + ".sshuser"@,
        res.ssh_port@ == section@ + ".sshport"@,
{
    BackendKeys {
        remote: section.to_owned().concat(".remote"),
        ssh_user: section.to_owned().concat(".sshuser"),
        ssh_port: section.to_owned().concat(".sshport"),
    }
}

/// What the configuration says about a store: the values of the variables of its section, as
/// `backend_keys` names them, and whether `remote` is a directory.
pub struct BackendConfig {
    pub section: String,
    pub remote: Option<String>,
    pub ssh_user: Option<String>,
    pub ssh_port: Option<String>,
    pub remote_is_dir: bool,
}

/// What comes of a description of a store. The address has to be there; only the sections
/// `copy` and `rsync` are known; the directory of `copy` has to exist.
pub open spec fn loads(
    base_dir: PathBuf,
    config_path: PathBuf,
    config: BackendConfig,
    res: Result<LoadedBackend, FatError>,
) -> bool {
    match config.remote {
        None => res is Err && res->Err_0.is_not_found(
            "missing '"@ + config.section@ + ".remote"@ + "' in "@ + path_text(config_path),
        ),
        Some(remote) => if config.section@ == "copy"@ {
            if config.remote_is_dir {
                &&& res matches Ok(LoadedBackend::Copy(backend))
                &&& backend.remote() == path_of(remote@)
                &&& backend.base_dir() == base_dir
            } else {
                res is Err && res->Err_0.is_not_found(
                    "copy backend remote is not a directory: "@ + remote@,
                )
            }
        } else if config.section@ == "rsync"@ {
            &&& res matches Ok(LoadedBackend::Rsync(backend))
            &&& backend.wf()
            &&& backend.remote_url() == remote@
            &&& backend.base_dir() == base_dir
            &&& backend.ssh_user() == optional_text(config.ssh_user)
            &&& backend.ssh_port() == optional_text(config.ssh_port)
        } else {
            res is Err && res->Err_0.is_unsupported(
                "unknown backend '"@ + config.section@ + "' in "@ + path_text(config_path),
            )
        },
    }
}

/// Loads the store that a section of the configuration describes.
pub fn load_backend(base_dir: PathBuf, config_path: &PathBuf, config: BackendConfig) -> (res:
    Result<LoadedBackend, FatError>)
    ensures
        loads(base_dir, *config_path, config, res),
{
    let section: String = config.section;
    let remote: String = match config.remote {
        Some(remote) => remote,
        None => {
            let message = "missing '".to_owned().concat(section.as_str()).concat(".remote").concat(
                "' in ",
            ).concat(path_display(config_path).as_str());
            return Err(FatError::NotFound(message));
        },
    };
    if same_text(section.as_str(), "copy") {
        match CopyBackend::new(base_dir, remote.as_str(), config.remote_is_dir) {
            Ok(backend) => Ok(LoadedBackend::Copy(backend)),
            Err(error) => Err(error),
        }
    } else if same_text(section.as_str(), "rsync") {
        Ok(
            LoadedBackend::Rsync(
                RsyncBackend::new(base_dir, remote.as_str(), config.ssh_user, config.ssh_port),
            ),
        )
    } else {
        let message = "unknown backend '".to_owned().concat(section.as_str()).concat("' in ").concat(
            path_display(config_path).as_str(),
        );
        Err(FatError::Unsupported(message))
    }
}

/// The files of a file system and what they hold.
pub type Files = Map<PathBuf, Seq<u8>>;

/// What a run of copy jobs makes of the files, and whether it succeeded. A job whose copy
/// exists is passed over; a job whose source is missing fails and ends the run.
pub open spec fn after_copies(files: Files, jobs: Seq<CopyJob>) -> (Files, bool)
    decreases jobs.len(),
{
    if jobs.len() == 0 {
        (files, true)
    } else {
        let job = jobs[0];
        if job.acts(files.contains_key(job.dst)) == CopyAction::Skip {
            after_copies(files, jobs.drop_first())
        } else if files.contains_key(job.src) {
            after_copies(files.insert(job.dst, files[job.src]), jobs.drop_first())
        } else {
            (files, false)
        }
    }
}

/// A run of copy jobs changes no file that was there, whether it succeeds or not.
pub proof fn law_copies_keep_files(files: Files, jobs: Seq<CopyJob>, path: PathBuf)
    requires
        files.contains_key(path),
    ensures
        after_copies(files, jobs).0.contains_key(path),
        after_copies(files, jobs).0[path] == files[path],
    decreases jobs.len(),
{
    if jobs.len() > 0 {
        let job = jobs[0];
        if files.contains_key(job.dst) {
            law_copies_keep_files(files, jobs.drop_first(), path);
        } else if files.contains_key(job.src) {
            law_copies_keep_files(files.insert(job.dst, files[job.src]), jobs.drop_first(), path);
        }
    }
}

/// A run of copy jobs makes no file but the copies.
pub proof fn law_copies_make_no_other_files(files: Files, jobs: Seq<CopyJob>, path: PathBuf)
    requires
        after_copies(files, jobs).0.contains_key(path),
        !files.contains_key(path),
    ensures
        exists|i: int| 0 <= i < jobs.len() && #[trigger] jobs[i].dst == path,
    decreases jobs.len(),
{
    if jobs.len() > 0 {
        let job = jobs[0];
        let rest = jobs.drop_first();
        if job.dst != path {
            if files.contains_key(job.dst) {
                law_copies_make_no_other_files(files, rest, path);
            } else if files.contains_key(job.src) {
                law_copies_make_no_other_files(files.insert(job.dst, files[job.src]), rest, path);
            }
            let i = choose|i: int| 0 <= i < rest.len() && #[trigger] rest[i].dst == path;
            assert(jobs[i + 1].dst == path);
        } else {
            assert(jobs[0].dst == path);
        }
    }
}

/// Whether a job can be done: its source exists, or its copy does and nothing is left to do.
pub open spec fn is_possible(files: Files, job: CopyJob) -> bool {
    files.contains_key(job.src) || files.contains_key(job.dst)
}

/// A run succeeds only where every job can be done, as long as no two jobs write the same file
/// and no job copies what another one wrote.
pub proof fn law_only_possible_copies_succeed(files: Files, jobs: Seq<CopyJob>)
    requires
        after_copies(files, jobs).1,
        forall|i: int, j: int|
            0 <= i < jobs.len() && 0 <= j < jobs.len() && i != j ==> #[trigger] jobs[i].dst
                != #[trigger] jobs[j].dst,
        forall|i: int, j: int|
            0 <= i < jobs.len() && 0 <= j < jobs.len() && i != j ==> #[trigger] jobs[i].src
                != #[trigger] jobs[j].dst,
    ensures
        forall|i: int| 0 <= i < jobs.len() ==> is_possible(files, #[trigger] jobs[i]),
    decreases jobs.len(),
{
    if jobs.len() > 0 {
        let job = jobs[0];
        let rest = jobs.drop_first();
        let next = if files.contains_key(job.dst) {
            files
        } else {
            files.insert(job.dst, files[job.src])
        };
        assert(after_copies(next, rest).1);
        assert forall|i: int, j: int|
            0 <= i < rest.len() && 0 <= j < rest.len() && i
                != j implies #[trigger] rest[i].dst != #[trigger] rest[j].dst by {
            assert(rest[i] == jobs[i + 1]);
            assert(rest[j] == jobs[j + 1]);
            assert(jobs[i + 1].dst != jobs[j + 1].dst);
        }
        assert forall|i: int, j: int|
            0 <= i < rest.len() && 0 <= j < rest.len() && i
                != j implies #[trigger] rest[i].src != #[trigger] rest[j].dst by {
            assert(rest[i] == jobs[i + 1]);
            assert(rest[j] == jobs[j + 1]);
            assert(jobs[i + 1].src != jobs[j + 1].dst);
        }
        law_only_possible_copies_succeed(next, rest);
        assert forall|i: int| 0 <= i < jobs.len() implies is_possible(
            files,
            #[trigger] jobs[i],
        ) by {
            if i > 0 {
                assert(rest[i - 1] == jobs[i]);
                assert(is_possible(next, rest[i - 1]));
                assert(jobs[i].src != jobs[0].dst);
                assert(jobs[i].dst != jobs[0].dst);
            }
        }
    }
}

/// Where every job has its source or its copy, and no two jobs write the same file, a run
/// succeeds, and every copy that was missing holds what its source held.
pub proof fn law_copies_succeed(files: Files, jobs: Seq<CopyJob>)
    requires
        forall|i: int|
            0 <= i < jobs.len() ==> is_possible(files, #[trigger] jobs[i]),
        forall|i: int, j: int|
            0 <= i < jobs.len() && 0 <= j < jobs.len() && i != j ==> #[trigger] jobs[i].dst
                != #[trigger] jobs[j].dst,
    ensures
        after_copies(files, jobs).1,
        forall|i: int|
            0 <= i < jobs.len() ==> after_copies(files, jobs).0.contains_key(
                #[trigger] jobs[i].dst,
            ),
        forall|i: int|
            0 <= i < jobs.len() && !files.contains_key(jobs[i].dst) ==> after_copies(
                files,
                jobs,
            ).0[#[trigger] jobs[i].dst] == files[jobs[i].src],
    decreases jobs.len(),
{
    if jobs.len() > 0 {
        let job = jobs[0];
        let rest = jobs.drop_first();
        let next = if files.contains_key(job.dst) {
            files
        } else {
            files.insert(job.dst, files[job.src])
        };
        assert(is_possible(files, jobs[0]));
        assert forall|i: int| 0 <= i < rest.len() implies is_possible(
            next,
            #[trigger] rest[i],
        ) by {
            assert(rest[i] == jobs[i + 1]);
        }
        assert forall|i: int, j: int|
            0 <= i < rest.len() && 0 <= j < rest.len() && i
                != j implies #[trigger] rest[i].dst != #[trigger] rest[j].dst by {
            assert(rest[i] == jobs[i + 1]);
            assert(rest[j] == jobs[j + 1]);
        }
        law_copies_succeed(next, rest);
        law_copies_keep_files(next, rest, job.dst);
        assert forall|i: int| 0 <= i < jobs.len() implies after_copies(
            files,
            jobs,
        ).0.contains_key(#[trigger] jobs[i].dst) && (!files.contains_key(jobs[i].dst)
            ==> after_copies(files, jobs).0[jobs[i].dst] == files[jobs[i].src]) by {
            if i > 0 {
                assert(rest[i - 1] == jobs[i]);
                assert(jobs[i].dst != jobs[0].dst);
                assert(is_possible(files, jobs[i]));
                if !files.contains_key(jobs[i].dst) {
                    assert(next[jobs[i].src] == files[jobs[i].src]);
                }
            }
        }
    }
}

/// Whether different names lead to different files, one from each of two directories.
pub open spec fn joins_apart(a: PathBuf, b: PathBuf, names: Seq<Seq<char>>) -> bool {
    forall|i: int, j: int|
        0 <= i < names.len() && 0 <= j < names.len() && i != j ==> path_joined(
            a,
            #[trigger] names[i],
        ) != path_joined(b, #[trigger] names[j])
}

/// Where different names lead to different files, no two jobs write the same file, and none copies
/// what another one wrote.
proof fn lemma_copies_are_distinct(
    jobs: Seq<CopyJob>,
    from: PathBuf,
    to: PathBuf,
    names: Seq<Seq<char>>,
    set_readonly: bool,
)
    requires
        copies_all(jobs, from, to, names, set_readonly),
        joins_apart(to, to, names),
    ensures
        forall|i: int, j: int|
            0 <= i < jobs.len() && 0 <= j < jobs.len() && i != j ==> #[trigger] jobs[i].dst
                != #[trigger] jobs[j].dst,
        joins_apart(from, to, names) ==> forall|i: int, j: int|
            0 <= i < jobs.len() && 0 <= j < jobs.len() && i != j ==> #[trigger] jobs[i].src
                != #[trigger] jobs[j].dst,
{
    assert forall|i: int, j: int|
        0 <= i < jobs.len() && 0 <= j < jobs.len() && i != j implies #[trigger] jobs[i].dst
        != #[trigger] jobs[j].dst by {
        assert(jobs[i].copies(from, to, names[i], set_readonly));
        assert(jobs[j].copies(from, to, names[j], set_readonly));
    }
    if joins_apart(from, to, names) {
        assert forall|i: int, j: int|
            0 <= i < jobs.len() && 0 <= j < jobs.len() && i != j implies #[trigger] jobs[i].src
            != #[trigger] jobs[j].dst by {
            assert(jobs[i].copies(from, to, names[i], set_readonly));
            assert(jobs[j].copies(from, to, names[j], set_readonly));
        }
    }
}

impl Transfer {
    /// The copy jobs of a transfer.
    pub open spec fn jobs(self) -> Seq<CopyJob> {
        match self {
            Transfer::Copy { create_dir, jobs } => jobs@,
            _ => Seq::empty(),
        }
    }
}

/// Whether a push from one cache and a pull into another bring every object across: the pull
/// succeeds, and the second cache ends up with what the remote held of each object before, or else
/// with what the first cache held.
pub open spec fn brings_across(
    files: Files,
    here: CopyBackend,
    there: CopyBackend,
    names: Seq<Seq<char>>,
    push: Transfer,
    pull: Transfer,
) -> bool {
    let middle = after_copies(files, push.jobs()).0;
    let end = after_copies(middle, pull.jobs());
    &&& end.1
    &&& forall|i: int|
        0 <= i < names.len() ==> {
            let source = path_joined(here.base_dir(), #[trigger] names[i]);
            let stored = path_joined(here.remote(), names[i]);
            let pulled = path_joined(there.base_dir(), names[i]);
            &&& end.0.contains_key(pulled)
            &&& end.0[pulled] == if files.contains_key(stored) {
                files[stored]
            } else {
                files[source]
            }
        }
}

/// What one repository has pushed to a directory, another one pulls from it unchanged, after a
/// push that succeeded: whatever the names are, as long as different names lead to different
/// files in the directories concerned, and the second cache has none of the objects yet.
pub proof fn law_push_then_pull(
    files: Files,
    here: CopyBackend,
    there: CopyBackend,
    names: Seq<Seq<char>>,
    git_ssh: Option<Seq<char>>,
    push: Transfer,
    pull: Transfer,
)
    requires
        here.remote() == there.remote(),
        here.transfers(true, names, git_ssh, push),
        there.transfers(false, names, git_ssh, pull),
        joins_apart(here.remote(), here.remote(), names),
        joins_apart(there.base_dir(), there.base_dir(), names),
        joins_apart(here.base_dir(), here.remote(), names),
        joins_apart(there.base_dir(), here.remote(), names),
        after_copies(files, push.jobs()).1,
        forall|i: int|
            0 <= i < names.len() ==> !files.contains_key(
                path_joined(there.base_dir(), #[trigger] names[i]),
            ),
    ensures
        brings_across(files, here, there, names, push, pull),
{
    let pushed = push.jobs();
    let pulled = pull.jobs();
    let remote = here.remote();
    let middle = after_copies(files, pushed).0;
    let end = after_copies(middle, pulled).0;
    lemma_copies_are_distinct(pushed, here.base_dir(), remote, names, false);
    lemma_copies_are_distinct(pulled, remote, there.base_dir(), names, true);
    law_only_possible_copies_succeed(files, pushed);
    law_copies_succeed(files, pushed);
    assert forall|i: int| 0 <= i < pulled.len() implies is_possible(middle, #[trigger] pulled[i])
        && middle.contains_key(pulled[i].src) && middle[pulled[i].src] == (if files.contains_key(
        pushed[i].dst,
    ) {
        files[pushed[i].dst]
    } else {
        files[pushed[i].src]
    }) by {
        assert(pulled[i].copies(remote, there.base_dir(), names[i], true));
        assert(pushed[i].copies(here.base_dir(), remote, names[i], false));
        assert(pulled[i].src == pushed[i].dst);
        if files.contains_key(pushed[i].dst) {
            law_copies_keep_files(files, pushed, pushed[i].dst);
        }
    }
    law_copies_succeed(middle, pulled);
    assert forall|i: int| 0 <= i < names.len() implies end.contains_key(pulled[i].dst)
        && end[pulled[i].dst] == #[trigger] middle[pulled[i].src] by {
        assert(pulled[i].copies(remote, there.base_dir(), names[i], true));
        assert(!files.contains_key(path_joined(there.base_dir(), names[i])));
        if middle.contains_key(pulled[i].dst) {
            law_copies_make_no_other_files(files, pushed, pulled[i].dst);
            let j = choose|j: int|
                0 <= j < pushed.len() && #[trigger] pushed[j].dst == pulled[i].dst;
            assert(pushed[j].copies(here.base_dir(), remote, names[j], false));
            assert(pushed[i].copies(here.base_dir(), remote, names[i], false));
            assert(i == j);
            law_copies_keep_files(middle, pulled, pulled[i].dst);
        }
    }
    assert forall|i: int| 0 <= i < names.len() implies {
        let source = path_joined(here.base_dir(), #[trigger] names[i]);
        let stored = path_joined(here.remote(), names[i]);
        let pulled = path_joined(there.base_dir(), names[i]);
        &&& end.contains_key(pulled)
        &&& end[pulled] == if files.contains_key(stored) {
            files[stored]
        } else {
            files[source]
        }
    } by {
        assert(pulled[i].copies(remote, there.base_dir(), names[i], true));
        assert(pushed[i].copies(here.base_dir(), remote, names[i], false));
        assert(end[pulled[i].dst] == middle[pulled[i].src]);
    }
}

/// Different names lead to different files where each name becomes the last component of its path.
proof fn lemma_plain_names_join_apart(a: PathBuf, b: PathBuf, names: Seq<Seq<char>>)
    requires
        names.no_duplicates(),
        forall|i: int|
            0 <= i < names.len() ==> path_parts(path_joined(a, #[trigger] names[i])).last()
                == PathPart::Name(encode_utf8(names[i])),
        forall|i: int|
            0 <= i < names.len() ==> path_parts(path_joined(b, #[trigger] names[i])).last()
                == PathPart::Name(encode_utf8(names[i])),
    ensures
        joins_apart(a, b, names),
{
    assert forall|i: int, j: int|
        0 <= i < names.len() && 0 <= j < names.len() && i != j implies path_joined(
        a,
        #[trigger] names[i],
    ) != path_joined(b, #[trigger] names[j]) by {
        encode_utf8_decode_utf8(names[i]);
        encode_utf8_decode_utf8(names[j]);
    }
}

/// Plain names, such as digests, lead to different files: what one repository has pushed to a
/// directory, another one pulls from it unchanged, after a push that succeeded, where the second
/// cache has none of the objects yet.
pub proof fn law_push_then_pull_of_plain_names(
    files: Files,
    here: CopyBackend,
    there: CopyBackend,
    names: Seq<Seq<char>>,
    git_ssh: Option<Seq<char>>,
    push: Transfer,
    pull: Transfer,
)
    requires
        here.remote() == there.remote(),
        here.transfers(true, names, git_ssh, push),
        there.transfers(false, names, git_ssh, pull),
        names.no_duplicates(),
        forall|i: int| 0 <= i < names.len() ==> is_plain_name(#[trigger] names[i]),
        is_extensible(here.base_dir()),
        is_extensible(here.remote()),
        is_extensible(there.base_dir()),
        after_copies(files, push.jobs()).1,
        forall|i: int|
            0 <= i < names.len() ==> !files.contains_key(
                path_joined(there.base_dir(), #[trigger] names[i]),
            ),
    ensures
        brings_across(files, here, there, names, push, pull),
{
    let remote = here.remote();
    assert forall|i: int| 0 <= i < names.len() implies path_parts(
        path_joined(here.base_dir(), #[trigger] names[i]),
    ).last() == PathPart::Name(encode_utf8(names[i])) && path_parts(
        path_joined(remote, names[i]),
    ).last() == PathPart::Name(encode_utf8(names[i])) && path_parts(
        path_joined(there.base_dir(), names[i]),
    ).last() == PathPart::Name(encode_utf8(names[i])) by {
        assert(push.jobs()[i].copies(here.base_dir(), remote, names[i], false));
        assert(pull.jobs()[i].copies(remote, there.base_dir(), names[i], true));
    }
    lemma_plain_names_join_apart(remote, remote, names);
    lemma_plain_names_join_apart(there.base_dir(), there.base_dir(), names);
    lemma_plain_names_join_apart(here.base_dir(), remote, names);
    lemma_plain_names_join_apart(there.base_dir(), remote, names);
    law_push_then_pull(files, here, there, names, git_ssh, push, pull);
}

/// A push and a pull exchange source and destination, and differ in nothing else.
pub proof fn law_rsync_directions(backend: RsyncBackend, git_ssh: Option<Seq<char>>)
    ensures
        backend.args(true, git_ssh)[5] == backend.args(false, git_ssh)[6],
        backend.args(true, git_ssh)[6] == backend.args(false, git_ssh)[5],
        backend.args(true, git_ssh).len() == backend.args(false, git_ssh).len(),
        forall|i: int|
            0 <= i < backend.args(true, git_ssh).len() && i != 5 && i != 6 ==> backend.args(
                true,
                git_ssh,
            )[i] == backend.args(false, git_ssh)[i],
{
}

/// The list of names that rsync reads tells which names were meant, as long as none of them
/// holds a NUL.
pub proof fn law_file_list_is_unambiguous(a: Seq<Seq<char>>, b: Seq<Seq<char>>)
    requires
        nul_terminated(a) == nul_terminated(b),
        forall|i: int| 0 <= i < a.len() ==> !(#[trigger] a[i]).contains('\0'),
        forall|i: int| 0 <= i < b.len() ==> !(#[trigger] b[i]).contains('\0'),
    ensures
        a == b,
    decreases a.len(),
{
    if a.len() == 0 || b.len() == 0 {
        assert(a =~= b);
    } else {
        lemma_last_name(a, b);
        lemma_last_name(b, a);
        let a_list = nul_terminated(a.drop_last());
        let b_list = nul_terminated(b.drop_last());
        let whole = nul_terminated(a);
        assert(a_list =~= whole.take(a_list.len() as int));
        assert(b_list =~= whole.take(b_list.len() as int));
        assert(encode_utf8(a.last()) =~= whole.subrange(a_list.len() as int, whole.len() - 1));
        assert(encode_utf8(b.last()) =~= whole.subrange(b_list.len() as int, whole.len() - 1));
        encode_utf8_decode_utf8(a.last());
        encode_utf8_decode_utf8(b.last());
        law_file_list_is_unambiguous(a.drop_last(), b.drop_last());
        assert(a =~= a.drop_last().push(a.last()));
        assert(b =~= b.drop_last().push(b.last()));
    }
}

/// The last name of one list begins no earlier than that of another with the same bytes.
proof fn lemma_last_name(a: Seq<Seq<char>>, b: Seq<Seq<char>>)
    requires
        nul_terminated(a) == nul_terminated(b),
        a.len() > 0,
        b.len() > 0,
        !a.last().contains('\0'),
    ensures
        nul_terminated(a.drop_last()).len() >= nul_terminated(b.drop_last()).len(),
{
    let a_list = nul_terminated(a.drop_last());
    let b_list = nul_terminated(b.drop_last());
    let whole = nul_terminated(a);
    if a_list.len() < b_list.len() {
        let at = b_list.len() - 1;
        assert(nul_terminated(b) =~= b_list + encode_utf8(b.last()) + seq![0u8]);
        assert(whole =~= a_list + encode_utf8(a.last()) + seq![0u8]);
        assert(b_list[at] == 0);
        assert(whole[at] == b_list[at]);
        let bytes = encode_utf8(a.last());
        assert(whole[at] == bytes[at - a_list.len()]);
        lemma_encoded_ascii_byte(a.last(), at - a_list.len());
        let i = choose|i: int|
            0 <= i < a.last().len() && a.last()[i] as u32 == bytes[at - a_list.len()] as u32;
        char_u32_cast(a.last()[i], 0u32);
        char_u32_cast('\0', 0u32);
        assert(a.last()[i] == '\0');
    }
}

/// A copy is made exactly where there is none, and is made read-only exactly where that is asked
/// for.
pub proof fn law_copy_action(job: CopyJob, dst_exists: bool)
    ensures
        job.acts(dst_exists) == CopyAction::Skip <==> dst_exists,
        job.acts(dst_exists) == CopyAction::CopyReadOnly <==> !dst_exists && job.set_readonly,
        job.acts(dst_exists) == CopyAction::Copy <==> !dst_exists && !job.set_readonly,
{
}

/// A directory gets a copy of every object, one job for each and in their order. A push copies from
/// the cache to the remote directory, which it makes first; a pull copies from the remote directory
/// to the cache, read-only.
pub proof fn law_copy_transfer(
    backend: CopyBackend,
    push: bool,
    names: Seq<Seq<char>>,
    git_ssh: Option<Seq<char>>,
    transfer: Transfer,
)
    requires
        backend.transfers(push, names, git_ssh, transfer),
    ensures
        transfer is Copy,
        push ==> transfer->create_dir == Some(backend.remote()),
        !push ==> transfer->create_dir is None,
        transfer->jobs@.len() == names.len(),
        forall|i: int|
            0 <= i < names.len() ==> (#[trigger] transfer->jobs@[i]).src == path_joined(
                if push {
                    backend.base_dir()
                } else {
                    backend.remote()
                },
                names[i],
            ) && transfer->jobs@[i].dst == path_joined(
                if push {
                    backend.remote()
                } else {
                    backend.base_dir()
                },
                names[i],
            ) && transfer->jobs@[i].set_readonly == !push,
{
}

/// The command line of rsync: the options, then the source and the destination, each with a slash
/// behind it, and the remote shell unless the remote is a daemon. A push goes from the cache to the
/// remote, a pull the other way. The shell is `GIT_SSH` or `ssh`, with the user and the port where
/// they are configured.
pub proof fn law_rsync_arguments(backend: RsyncBackend, push: bool, git_ssh: Option<Seq<char>>)
    ensures
        backend.args(push, git_ssh).len() == if backend.is_rsyncd() {
            7
        } else {
            8int
        },
        backend.args(push, git_ssh).take(5) == seq![
            "-s"@,
            "--progress"@,
            "--ignore-existing"@,
            "--from0"@,
            "--files-from=-"@,
        ],
        push ==> backend.args(push, git_ssh)[5] == path_text(backend.base_dir()) + "/"@
            && backend.args(push, git_ssh)[6] == backend.remote_url() + "/"@,
        !push ==> backend.args(push, git_ssh)[5] == backend.remote_url() + "/"@ && backend.args(
            push,
            git_ssh,
        )[6] == path_text(backend.base_dir()) + "/"@,
        !backend.is_rsyncd() ==> backend.args(push, git_ssh)[7] == "--rsh="@ + ((if git_ssh is Some {
            git_ssh->0
        } else {
            "ssh"@
        }) + (if backend.ssh_user() is Some {
            " -l "@ + backend.ssh_user()->0
        } else {
            Seq::empty()
        }) + (if backend.ssh_port() is Some {
            " -p "@ + backend.ssh_port()->0
        } else {
            Seq::empty()
        })),
{
    assert(backend.args(push, git_ssh).take(5) =~= seq![
        "-s"@,
        "--progress"@,
        "--ignore-existing"@,
        "--from0"@,
        "--files-from=-"@,
    ]);
}

/// The list of names is made name by name, each ended by a NUL.
proof fn lemma_file_list(names: Seq<Seq<char>>)
    ensures
        nul_terminated(names) == names.fold_left(
            Seq::<u8>::empty(),
            |list: Seq<u8>, name: Seq<char>| list + encode_utf8(name) + seq![0u8],
        ),
    decreases names.len(),
{
    if names.len() > 0 {
        lemma_file_list(names.drop_last());
    }
}

/// Each name stands on the list, between the beginning or a NUL and a NUL.
proof fn lemma_listed(names: Seq<Seq<char>>, i: int) -> (at: int)
    requires
        0 <= i < names.len(),
    ensures
        0 <= at,
        at + encode_utf8(names[i]).len() < nul_terminated(names).len(),
        nul_terminated(names).subrange(at, at + encode_utf8(names[i]).len()) == encode_utf8(names[i]),
        nul_terminated(names)[at + encode_utf8(names[i]).len()] == 0,
        at == 0 || nul_terminated(names)[at - 1] == 0,
    decreases names.len(),
{
    let earlier = nul_terminated(names.drop_last());
    let whole = nul_terminated(names);
    let bytes = encode_utf8(names[i]);
    assert(whole =~= earlier + encode_utf8(names.last()) + seq![0u8]);
    if i == names.len() - 1 {
        let at = earlier.len() as int;
        assert(whole.subrange(at, at + bytes.len()) =~= bytes);
        if names.len() > 1 {
            let before = names.drop_last();
            assert(earlier =~= nul_terminated(before.drop_last()) + encode_utf8(before.last())
                + seq![0u8]);
            assert(earlier[at - 1] == 0);
            assert(whole[at - 1] == earlier[at - 1]);
        }
        at
    } else {
        let at = lemma_listed(names.drop_last(), i);
        assert(names.drop_last()[i] == names[i]);
        assert(whole.subrange(at, at + bytes.len()) =~= earlier.subrange(at, at + bytes.len()));
        assert(whole[at + bytes.len()] == earlier[at + bytes.len()]);
        at
    }
}

/// rsync is run for a push as for a pull, over SSH as at a daemon, unless there is no object to
/// transfer. It is given its arguments, and reads a list of all the objects, each ended by a NUL.
pub proof fn law_rsync_transfer(
    backend: RsyncBackend,
    push: bool,
    names: Seq<Seq<char>>,
    git_ssh: Option<Seq<char>>,
    transfer: Transfer,
)
    requires
        backend.transfers(push, names, git_ssh, transfer),
    ensures
        transfer is Nothing <==> names.len() == 0,
        transfer is Rsync <==> names.len() > 0,
        transfer matches Transfer::Rsync(run) ==> {
            &&& run.args@.map_values(|arg: String| arg@) == backend.args(push, git_ssh)
            &&& run.stdin@ == names.fold_left(
                Seq::<u8>::empty(),
                |list: Seq<u8>, name: Seq<char>| list + encode_utf8(name) + seq![0u8],
            )
        },
{
    lemma_file_list(names);
    if let Transfer::Rsync(run) = transfer {
        assert(run.args@.map_values(|arg: String| arg@) =~= texts(run.args@));
    }
}

/// Every object that rsync transfers stands on the list that it reads, whole and by itself.
pub proof fn law_rsync_lists_object(
    backend: RsyncBackend,
    push: bool,
    names: Seq<Seq<char>>,
    git_ssh: Option<Seq<char>>,
    run: RsyncRun,
    i: int,
)
    requires
        backend.transfers(push, names, git_ssh, Transfer::Rsync(run)),
        0 <= i < names.len(),
    ensures
        exists|at: int|
            {
                &&& 0 <= at && at + encode_utf8(names[i]).len() < run.stdin@.len()
                &&& #[trigger] run.stdin@.subrange(at, at + encode_utf8(names[i]).len())
                    == encode_utf8(names[i])
                &&& run.stdin@[at + encode_utf8(names[i]).len()] == 0
                &&& at == 0 || run.stdin@[at - 1] == 0
            },
{
    let at = lemma_listed(names, i);
    assert(run.stdin@.subrange(at, at + encode_utf8(names[i]).len()) == encode_utf8(names[i]));
}

/// A store does what its kind of store does.
pub proof fn law_loaded_backend_transfers(
    copy: CopyBackend,
    rsync: RsyncBackend,
    push: bool,
    names: Seq<Seq<char>>,
    git_ssh: Option<Seq<char>>,
    transfer: Transfer,
)
    ensures
        LoadedBackend::Copy(copy).transfers(push, names, git_ssh, transfer) <==> copy.transfers(
            push,
            names,
            git_ssh,
            transfer,
        ),
        LoadedBackend::Rsync(rsync).transfers(push, names, git_ssh, transfer) <==> rsync.transfers(
            push,
            names,
            git_ssh,
            transfer,
        ),
{
}

/// The first section is what stands before the first dot in the first name that is a text, and the
/// whole of that name where it has no dot. Where no name is a text, there is none.
pub proof fn law_first_section(
    skipped: Seq<Option<String>>,
    name: String,
    rest: Seq<Option<String>>,
    head: Seq<char>,
    last: Seq<char>,
)
    requires
        forall|i: int| 0 <= i < skipped.len() ==> #[trigger] skipped[i] is None,
        !head.contains('.'),
        name@ == head || name@ == head + seq!['.'] + last,
    ensures
        first_section(skipped + seq![Some(name)] + rest) == Some(head),
        first_section(skipped) is None,
    decreases skipped.len(),
{
    let entries = skipped + seq![Some(name)] + rest;
    if skipped.len() == 0 {
        assert(entries[0] == Some(name));
        law_before_first(head, last, '.');
    } else {
        assert(entries[0] == skipped[0]);
        assert(entries.drop_first() =~= skipped.drop_first() + seq![Some(name)] + rest);
        law_first_section(skipped.drop_first(), name, rest, head, last);
    }
}

/// What comes of a description of a store. Without an address it is an error, which names the
/// variable and the file. `copy` gives a directory store where the directory exists, and an error
/// that names the directory where it does not. `rsync` gives an rsync store with the address, the
/// user and the port. Any other section is an error that names the section and the file.
pub proof fn law_described_store(
    base_dir: PathBuf,
    config_path: PathBuf,
    config: BackendConfig,
    res: Result<LoadedBackend, FatError>,
)
    requires
        loads(base_dir, config_path, config, res),
    ensures
        config.remote is None ==> res is Err && res->Err_0 is NotFound && res->Err_0->NotFound_0@
            == "missing '"@ + config.section@ + ".remote"@ + "' in "@ + path_text(config_path),
        config.remote is Some && config.section@ == "copy"@ && config.remote_is_dir ==> {
            &&& res is Ok && res->Ok_0 is Copy
            &&& res->Ok_0->Copy_0.remote() == path_of(config.remote->0@)
            &&& res->Ok_0->Copy_0.base_dir() == base_dir
        },
        config.remote is Some && config.section@ == "copy"@ && !config.remote_is_dir ==> res is Err
            && res->Err_0 is NotFound && res->Err_0->NotFound_0@
            == "copy backend remote is not a directory: "@ + config.remote->0@,
        config.remote is Some && config.section@ == "rsync"@ ==> {
            &&& res is Ok && res->Ok_0 is Rsync
            &&& res->Ok_0->Rsync_0.remote_url() == config.remote->0@
            &&& res->Ok_0->Rsync_0.base_dir() == base_dir
            &&& res->Ok_0->Rsync_0.is_rsyncd() <==> exists|i: int|
                0 <= i <= config.remote->0@.len() - 2 && #[trigger] config.remote->0@.subrange(
                    i,
                    i + 2,
                ) == seq![':', ':']
            &&& res->Ok_0->Rsync_0.ssh_user() is Some <==> config.ssh_user is Some
            &&& config.ssh_user is Some ==> res->Ok_0->Rsync_0.ssh_user()->0 == config.ssh_user->0@
            &&& res->Ok_0->Rsync_0.ssh_port() is Some <==> config.ssh_port is Some
            &&& config.ssh_port is Some ==> res->Ok_0->Rsync_0.ssh_port()->0 == config.ssh_port->0@
        },
        config.remote is Some && config.section@ != "copy"@ && config.section@ != "rsync"@
            ==> res is Err && res->Err_0 is Unsupported && res->Err_0->Unsupported_0@
            == "unknown backend '"@ + config.section@ + "' in "@ + path_text(config_path),
{
    reveal_strlit("copy");
    reveal_strlit("rsync");
    assert("copy"@ != "rsync"@) by {
        assert("copy"@.len() != "rsync"@.len());
    }
    if let Some(remote) = config.remote {
        law_has_doubled(remote@, ':');
    }
}

} // verus!
