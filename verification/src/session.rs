//! The server's scan session: its status, its capped log, its result, and
//! the transitions that starting, finishing, cancelling and resetting a scan,
//! checking files and deleting files make.
use vstd::prelude::*;
use crate::model::{FileEntry, FileEntryView, Group, GroupView, ScanResult, ScanResultView, groups_view, files_view, decimal,
    decimal_chars};

verus! {

/// Where a scan session stands.
#[derive(Debug, Clone, Copy, PartialEq, Eq, Structural)]
pub enum ScanStatus {
    Idle,
    Scanning,
    Done,
    Cancelled,
    Error,
}

/// The most log lines a scan keeps.
pub const LOG_CAP: usize = 500;

/// The scan session shared by the server's handlers.
pub struct ScanState {
    pub status: ScanStatus,
    pub log: Vec<String>,
    pub result: Option<ScanResult>,
    pub timestamp: Option<String>,
    pub paths: Vec<String>,
    pub session_uuid: Option<String>,
}

pub open spec fn texts(v: Seq<String>) -> Seq<Seq<char>> {
    v.map_values(|s: String| s@)
}

pub open spec fn opt_chars(s: Option<String>) -> Option<Seq<char>> {
    match s {
        Some(t) => Some(t@),
        None => None,
    }
}

/// The session as values.
pub ghost struct ScanStateView {
    pub status: ScanStatus,
    pub log: Seq<Seq<char>>,
    pub result: Option<ScanResultView>,
    pub timestamp: Option<Seq<char>>,
    pub paths: Seq<Seq<char>>,
    pub session_uuid: Option<Seq<char>>,
}

impl View for ScanState {
    type V = ScanStateView;

    open spec fn view(&self) -> ScanStateView {
        ScanStateView {
            status: self.status,
            log: texts(self.log@),
            result: match self.result {
                Some(r) => Some(r@),
                None => None,
            },
            timestamp: opt_chars(self.timestamp),
            paths: texts(self.paths@),
            session_uuid: opt_chars(self.session_uuid),
        }
    }
}

/// The idle session: no log, no result.
pub open spec fn idle() -> ScanStateView {
    ScanStateView {
        status: ScanStatus::Idle,
        log: Seq::empty(),
        result: None,
        timestamp: None,
        paths: Seq::empty(),
        session_uuid: None,
    }
}

/// The log after appending `msg`, its oldest line dropped beyond the cap.
pub open spec fn capped_push(log: Seq<Seq<char>>, msg: Seq<char>) -> Seq<Seq<char>> {
    if log.len() + 1 > 500 {
        log.push(msg).drop_first()
    } else {
        log.push(msg)
    }
}

/// Why a scan could not start.
#[derive(Debug, Clone, PartialEq, Eq)]
pub enum StartError {
    /// A scan is already running.
    AlreadyScanning,
    /// A requested path is not a folder.
    NotADirectory(String),
}

/// The first path (by the flags given with the paths) that is not a folder.
pub open spec fn first_non_dir(paths: Seq<Seq<char>>, is_dir: Seq<bool>) -> Option<Seq<char>>
    decreases paths.len(),
{
    if paths.len() == 0 {
        None
    } else {
        match first_non_dir(paths.drop_last(), is_dir.take(paths.len() - 1)) {
            Some(p) => Some(p),
            None => if is_dir[paths.len() - 1] { None } else { Some(paths.last()) },
        }
    }
}

fn concat(prefix: &str, tail: &Vec<char>) -> (r: String)
    ensures
        r@ == prefix@ + tail@,
{
    let mut r = prefix.to_string();
    let ghost r0 = r@;
    let mut i: usize = 0;
    while i < tail.len()
        invariant
            i <= tail.len(),
            r@ == r0 + tail@.take(i as int),
        decreases tail.len() - i,
    {
        r.push(tail[i]);
        assert(r0 + tail@.take(i as int).push(tail@[i as int]) =~= r0 + tail@.take(i + 1));
        i = i + 1;
    }
    assert(tail@.take(tail.len() as int) =~= tail@);
    r
}

impl StartError {
    /// The message the server answers with.
    pub fn detail(&self) -> (r: String)
        ensures
            r@ == match self {
                StartError::AlreadyScanning => "스캔이 이미 진행 중입니다"@,
                StartError::NotADirectory(p) => "디렉토리가 존재하지 않아요: "@ + p@,
            },
    {
        match self {
            StartError::AlreadyScanning => "스캔이 이미 진행 중입니다".to_string(),
            StartError::NotADirectory(p) => concat("디렉토리가 존재하지 않아요: ", &crate::text::chars_of(p.as_str())),
        }
    }
}

/// The message answered when there is no scan to cancel.
pub fn not_scanning_detail() -> (r: String)
    ensures
        r@ == "스캔 중이 아닙니다"@,
{
    "스캔 중이 아닙니다".to_string()
}

/// The message answered when there is no result to check.
pub fn no_result_detail() -> (r: String)
    ensures
        r@ == "스캔 결과가 없습니다"@,
{
    "스캔 결과가 없습니다".to_string()
}

/// The files of a list whose paths are not in `removed`, in order.
pub open spec fn kept_files(files: Seq<FileEntryView>, removed: Seq<Seq<char>>) -> Seq<FileEntryView>
    decreases files.len(),
{
    if files.len() == 0 {
        Seq::empty()
    } else if removed.contains(files.last().path) {
        kept_files(files.drop_last(), removed)
    } else {
        kept_files(files.drop_last(), removed).push(files.last())
    }
}

/// The paths of the files of a list that are in `removed`, in order.
pub open spec fn gone_files(files: Seq<FileEntryView>, removed: Seq<Seq<char>>) -> Seq<Seq<char>>
    decreases files.len(),
{
    if files.len() == 0 {
        Seq::empty()
    } else if removed.contains(files.last().path) {
        gone_files(files.drop_last(), removed).push(files.last().path)
    } else {
        gone_files(files.drop_last(), removed)
    }
}

/// The groups with the removed files taken out, those left with fewer than
/// `min_files` files dropped.
pub open spec fn pruned(gs: Seq<GroupView>, removed: Seq<Seq<char>>, min_files: nat) -> Seq<GroupView>
    decreases gs.len(),
{
    if gs.len() == 0 {
        Seq::empty()
    } else {
        let g = gs.last();
        let k = kept_files(g.files, removed);
        if k.len() >= min_files {
            pruned(gs.drop_last(), removed, min_files).push(GroupView { files: k, ..g })
        } else {
            pruned(gs.drop_last(), removed, min_files)
        }
    }
}

/// The paths of the removed files of the groups, group after group.
pub open spec fn gone(gs: Seq<GroupView>, removed: Seq<Seq<char>>) -> Seq<Seq<char>>
    decreases gs.len(),
{
    if gs.len() == 0 {
        Seq::empty()
    } else {
        gone(gs.drop_last(), removed) + gone_files(gs.last().files, removed)
    }
}

fn contains_text(list: &Vec<String>, s: &String) -> (r: bool)
    ensures
        r == texts(list@).contains(s@),
{
    let mut i: usize = 0;
    while i < list.len()
        invariant
            i <= list.len(),
            forall|j: int| 0 <= j < i ==> list@[j]@ != s@,
        decreases list.len() - i,
    {
        if list[i] == *s {
            assert(texts(list@)[i as int] == s@);
            return true;
        }
        i = i + 1;
    }
    assert forall|j: int| 0 <= j < texts(list@).len() implies texts(list@)[j] != s@ by {
        assert(texts(list@)[j] == list@[j]@);
    }
    false
}

fn prune_files(files: Vec<FileEntry>, removed: &Vec<String>) -> (r: (Vec<FileEntry>, Vec<String>))
    ensures
        files_view(r.0@) == kept_files(files_view(files@), texts(removed@)),
        texts(r.1@) == gone_files(files_view(files@), texts(removed@)),
{
    let ghost all = files_view(files@);
    let ghost rm = texts(removed@);
    let mut rest = files;
    let mut kept: Vec<FileEntry> = Vec::new();
    let mut lost: Vec<String> = Vec::new();
    let ghost mut done: int = 0;
    proof {
        assert(all.take(0) =~= Seq::<FileEntryView>::empty());
        assert(files_view(rest@) =~= all.skip(0));
    }
    while rest.len() > 0
        invariant
            0 <= done <= all.len(),
            rm == texts(removed@),
            files_view(rest@) == all.skip(done),
            files_view(kept@) == kept_files(all.take(done), rm),
            texts(lost@) == gone_files(all.take(done), rm),
        decreases rest.len(),
    {
        let ghost r0 = rest@;
        assert(files_view(r0).len() == r0.len());
        let f = rest.remove(0);
        proof {
            assert(files_view(r0)[0] == all[done]);
            assert(files_view(rest@) =~= all.skip(done + 1)) by {
                assert forall|j: int| 0 <= j < rest@.len() implies files_view(rest@)[j] == all.skip(done + 1)[j] by {
                    assert(rest@[j] == r0[j + 1]);
                    assert(files_view(r0)[j + 1] == all.skip(done)[j + 1]);
                }
            }
            let t = all.take(done + 1);
            assert(t.drop_last() =~= all.take(done));
            assert(t.last() == f@);
        }
        if contains_text(removed, &f.path) {
            let ghost l0 = lost@;
            lost.push(f.path.clone());
            assert(texts(lost@) =~= texts(l0).push(f@.path));
        } else {
            let ghost k0 = kept@;
            kept.push(f);
            assert(files_view(kept@) =~= files_view(k0).push(all[done]));
        }
        proof { done = done + 1; }
    }
    proof {
        assert(all.take(done) =~= all);
    }
    (kept, lost)
}

/// Takes the removed files out of each group and drops the groups left with
/// fewer than `min_files` files; also gives the paths taken out.
pub fn prune_groups(groups: Vec<Group>, removed: &Vec<String>, min_files: usize) -> (r: (Vec<Group>, Vec<String>))
    ensures
        groups_view(r.0@) == pruned(groups_view(groups@), texts(removed@), min_files as nat),
        texts(r.1@) == gone(groups_view(groups@), texts(removed@)),
{
    let ghost all = groups_view(groups@);
    let ghost rm = texts(removed@);
    let mut rest = groups;
    let mut out: Vec<Group> = Vec::new();
    let mut lost: Vec<String> = Vec::new();
    let ghost mut done: int = 0;
    proof {
        assert(all.take(0) =~= Seq::<GroupView>::empty());
        assert(groups_view(rest@) =~= all.skip(0));
    }
    while rest.len() > 0
        invariant
            0 <= done <= all.len(),
            rm == texts(removed@),
            groups_view(rest@) == all.skip(done),
            groups_view(out@) == pruned(all.take(done), rm, min_files as nat),
            texts(lost@) == gone(all.take(done), rm),
        decreases rest.len(),
    {
        let ghost r0 = rest@;
        assert(groups_view(r0).len() == r0.len());
        let g = rest.remove(0);
        proof {
            assert(groups_view(r0)[0] == all[done]);
            assert(groups_view(rest@) =~= all.skip(done + 1)) by {
                assert forall|j: int| 0 <= j < rest@.len() implies groups_view(rest@)[j] == all.skip(done + 1)[j] by {
                    assert(rest@[j] == r0[j + 1]);
                    assert(groups_view(r0)[j + 1] == all.skip(done)[j + 1]);
                }
            }
            let t = all.take(done + 1);
            assert(t.drop_last() =~= all.take(done));
            assert(t.last() == g@);
        }
        let ghost gv = g@;
        let Group { id, files, savable, savable_fmt, category, shared } = g;
        let (kept, gone_here) = prune_files(files, removed);
        let ghost l0 = lost@;
        let mut k: usize = 0;
        while k < gone_here.len()
            invariant
                k <= gone_here.len(),
                texts(lost@) == texts(l0) + texts(gone_here@).take(k as int),
            decreases gone_here.len() - k,
        {
            lost.push(gone_here[k].clone());
            assert(texts(l0) + texts(gone_here@).take(k + 1) =~= (texts(l0) + texts(gone_here@).take(k as int)).push(gone_here@[k as int]@));
            assert(texts(lost@) =~= (texts(l0) + texts(gone_here@).take(k as int)).push(gone_here@[k as int]@));
            k = k + 1;
        }
        assert(texts(gone_here@).take(gone_here.len() as int) =~= texts(gone_here@));
        if kept.len() >= min_files {
            let ng = Group { id, files: kept, savable, savable_fmt, category, shared };
            let ghost o0 = out@;
            out.push(ng);
            proof {
                assert(ng@ == GroupView { files: kept_files(gv.files, rm), ..gv });
                assert(groups_view(out@) =~= groups_view(o0).push(ng@));
            }
        }
        proof { done = done + 1; }
    }
    proof {
        assert(all.take(done) =~= all);
    }
    (out, lost)
}

/// A result with `prune_groups` applied to each tab.
pub open spec fn pruned_result(r: ScanResultView, removed: Seq<Seq<char>>, min_files: nat) -> ScanResultView {
    ScanResultView {
        regular: pruned(r.regular, removed, min_files),
        image: pruned(r.image, removed, min_files),
        video: pruned(r.video, removed, min_files),
        archive: pruned(r.archive, removed, min_files),
    }
}

/// The paths taken out of a result, tab after tab.
pub open spec fn gone_from_result(r: ScanResultView, removed: Seq<Seq<char>>) -> Seq<Seq<char>> {
    gone(r.regular, removed) + gone(r.image, removed) + gone(r.video, removed) + gone(r.archive, removed)
}

/// The log line of a file check.
pub open spec fn check_message(count: nat) -> Seq<char> {
    if count > 0 {
        "[파일 확인 완료] 없는 파일 "@ + decimal(count) + "개 제거됨"@
    } else {
        "[파일 확인 완료] 전체 정상"@
    }
}

/// The log line of a deletion.
pub open spec fn delete_message(deleted: nat, failed: nat) -> Seq<char> {
    "[삭제 완료] "@ + decimal(deleted) + "개 성공"@ + if failed == 0 {
        Seq::<char>::empty()
    } else {
        " / "@ + decimal(failed) + "개 실패"@
    }
}

fn append_all(out: &mut Vec<String>, more: Vec<String>)
    ensures
        texts(final(out)@) == texts(old(out)@) + texts(more@),
{
    let ghost o0 = texts(out@);
    let mut i: usize = 0;
    while i < more.len()
        invariant
            i <= more.len(),
            texts(out@) == o0 + texts(more@).take(i as int),
        decreases more.len() - i,
    {
        out.push(more[i].clone());
        assert(texts(out@) =~= (o0 + texts(more@).take(i as int)).push(more@[i as int]@));
        assert(o0 + texts(more@).take(i + 1) =~= (o0 + texts(more@).take(i as int)).push(more@[i as int]@));
        i = i + 1;
    }
    assert(texts(more@).take(more.len() as int) =~= texts(more@));
}

fn prune_result(r: ScanResult, removed: &Vec<String>, min_files: usize) -> (out: (ScanResult, Vec<String>))
    ensures
        out.0@ == pruned_result(r@, texts(removed@), min_files as nat),
        texts(out.1@) == gone_from_result(r@, texts(removed@)),
{
    let ScanResult { regular, image, video, archive } = r;
    let (regular, mut lost) = prune_groups(regular, removed, min_files);
    let (image, l2) = prune_groups(image, removed, min_files);
    append_all(&mut lost, l2);
    let (video, l3) = prune_groups(video, removed, min_files);
    append_all(&mut lost, l3);
    let (archive, l4) = prune_groups(archive, removed, min_files);
    append_all(&mut lost, l4);
    (ScanResult { regular, image, video, archive }, lost)
}

impl ScanState {
    /// A new, idle session.
    pub fn new() -> (r: ScanState)
        ensures
            r@ == idle(),
    {
        let r = ScanState {
            status: ScanStatus::Idle,
            log: Vec::new(),
            result: None,
            timestamp: None,
            paths: Vec::new(),
            session_uuid: None,
        };
        assert(r@.log =~= Seq::<Seq<char>>::empty());
        assert(r@.paths =~= Seq::<Seq<char>>::empty());
        r
    }

    /// Back to the idle session.
    pub fn reset(&mut self)
        ensures
            final(self)@ == idle(),
    {
        self.status = ScanStatus::Idle;
        self.log = Vec::new();
        self.result = None;
        self.timestamp = None;
        self.paths = Vec::new();
        self.session_uuid = None;
        assert(self@.log =~= Seq::<Seq<char>>::empty());
        assert(self@.paths =~= Seq::<Seq<char>>::empty());
    }

    /// Appends a line to the log, dropping the oldest line beyond 500.
    pub fn push_log(&mut self, msg: String)
        ensures
            final(self)@ == (ScanStateView { log: capped_push(old(self)@.log, msg@), ..old(self)@ }),
    {
        let ghost l0 = texts(self.log@);
        self.log.push(msg);
        assert(texts(self.log@) =~= l0.push(msg@));
        if self.log.len() > LOG_CAP {
            let ghost l1 = self.log@;
            let _dropped = self.log.remove(0);
            assert(texts(self.log@) =~= texts(l1).drop_first());
        }
    }

    /// Starts a scan of `paths` (with whether each one is a folder): refused
    /// while one runs or when a path is not a folder; otherwise the session is
    /// scanning, with an empty log, no result, and the given stamp and id.
    pub fn begin_scan(&mut self, paths: Vec<String>, is_dir: &Vec<bool>, timestamp: String, session_uuid: String) -> (r:
        Result<(), StartError>)
        requires
            is_dir.len() == paths.len(),
        ensures
            old(self).status == ScanStatus::Scanning ==> r == Err::<(), StartError>(StartError::AlreadyScanning)
                && final(self)@ == old(self)@,
            old(self).status != ScanStatus::Scanning && first_non_dir(texts(paths@), is_dir@) is Some ==>
                (r matches Err(StartError::NotADirectory(p)) && Some(p@) == first_non_dir(texts(paths@), is_dir@))
                && final(self)@ == old(self)@,
            old(self).status != ScanStatus::Scanning && first_non_dir(texts(paths@), is_dir@) is None ==> r is Ok
                && final(self)@ == (ScanStateView {
                    status: ScanStatus::Scanning,
                    log: Seq::empty(),
                    result: None,
                    timestamp: Some(timestamp@),
                    paths: texts(paths@),
                    session_uuid: Some(session_uuid@),
                }),
    {
        if self.status == ScanStatus::Scanning {
            return Err(StartError::AlreadyScanning);
        }
        let mut i: usize = 0;
        while i < paths.len()
            invariant
                i <= paths.len(),
                is_dir.len() == paths.len(),
                first_non_dir(texts(paths@).take(i as int), is_dir@.take(i as int)) is None,
                self@ == old(self)@,
                self.status != ScanStatus::Scanning,
            decreases paths.len() - i,
        {
            proof {
                let t = texts(paths@).take(i + 1);
                assert(t.drop_last() =~= texts(paths@).take(i as int));
                assert(is_dir@.take(i + 1).take(i as int) =~= is_dir@.take(i as int));
                assert(t.last() == paths@[i as int]@);
            }
            if !is_dir[i] {
                proof { lemma_first_non_dir_prefix(texts(paths@), is_dir@, i as int + 1); }
                return Err(StartError::NotADirectory(paths[i].clone()));
            }
            i = i + 1;
        }
        proof {
            assert(texts(paths@).take(paths.len() as int) =~= texts(paths@));
            assert(is_dir@.take(paths.len() as int) =~= is_dir@);
        }
        self.status = ScanStatus::Scanning;
        self.log = Vec::new();
        self.result = None;
        self.timestamp = Some(timestamp);
        self.paths = paths;
        self.session_uuid = Some(session_uuid);
        assert(self@.log =~= Seq::<Seq<char>>::empty());
        Ok(())
    }

    /// Records how a scan ended: its result, unless it was cancelled, or its
    /// error, logged as `오류: ...`.
    pub fn finish(&mut self, outcome: Result<ScanResult, String>)
        ensures
            match outcome {
                Ok(res) => if old(self).status == ScanStatus::Cancelled {
                    final(self)@ == old(self)@
                } else {
                    final(self)@ == (ScanStateView { status: ScanStatus::Done, result: Some(res@), ..old(self)@ })
                },
                Err(e) => final(self)@ == (ScanStateView {
                    status: ScanStatus::Error,
                    log: old(self)@.log.push("오류: "@ + e@),
                    ..old(self)@
                }),
            },
    {
        match outcome {
            Ok(res) => {
                if self.status != ScanStatus::Cancelled {
                    self.status = ScanStatus::Done;
                    self.result = Some(res);
                }
            },
            Err(e) => {
                self.status = ScanStatus::Error;
                let line = concat("오류: ", &crate::text::chars_of(e.as_str()));
                let ghost l0 = texts(self.log@);
                self.log.push(line);
                assert(texts(self.log@) =~= l0.push("오류: "@ + e@));
            },
        }
    }

    /// Cancels the running scan: refused when none runs; otherwise the
    /// session is cancelled and `중단됨` is logged.
    pub fn cancel(&mut self) -> (r: bool)
        ensures
            r == (old(self).status == ScanStatus::Scanning),
            !r ==> final(self)@ == old(self)@,
            r ==> final(self)@ == (ScanStateView {
                status: ScanStatus::Cancelled,
                log: old(self)@.log.push("중단됨"@),
                ..old(self)@
            }),
    {
        if self.status != ScanStatus::Scanning {
            return false;
        }
        self.status = ScanStatus::Cancelled;
        let ghost l0 = texts(self.log@);
        self.log.push("중단됨".to_string());
        assert(texts(self.log@) =~= l0.push("중단됨"@));
        true
    }

    /// Takes the files in `missing` out of the result, dropping the groups
    /// left empty, and logs how many were taken out; gives their paths, or
    /// `None` (the state unchanged) when there is no result.
    pub fn check_files(&mut self, missing: &Vec<String>) -> (r: Option<Vec<String>>)
        ensures
            old(self)@.result is None ==> r is None && final(self)@ == old(self)@,
            old(self)@.result matches Some(res) ==> (r matches Some(lost)
                && texts(lost@) == gone_from_result(res, texts(missing@))
                && final(self)@ == (ScanStateView {
                    result: Some(pruned_result(res, texts(missing@), 1)),
                    log: old(self)@.log.push(check_message(lost.len() as nat)),
                    ..old(self)@
                })),
    {
        match self.result.take() {
            None => None,
            Some(res) => {
                let (res2, lost) = prune_result(res, missing, 1);
                self.result = Some(res2);
                let line = if lost.len() > 0 {
                    let mut s = concat("[파일 확인 완료] 없는 파일 ", &decimal_chars(lost.len() as u64));
                    s.append("개 제거됨");
                    s
                } else {
                    "[파일 확인 완료] 전체 정상".to_string()
                };
                assert(line@ == check_message(lost.len() as nat));
                let ghost l0 = texts(self.log@);
                self.log.push(line);
                assert(texts(self.log@) =~= l0.push(check_message(lost.len() as nat)));
                Some(lost)
            },
        }
    }

    /// After files were deleted: when any was, takes them out of the result,
    /// drops the groups left with a single file, and logs the counts.
    pub fn apply_deletions(&mut self, deleted: &Vec<String>, failed: usize)
        ensures
            deleted.len() == 0 ==> final(self)@ == old(self)@,
            deleted.len() > 0 ==> final(self)@ == (ScanStateView {
                result: match old(self)@.result {
                    Some(res) => Some(pruned_result(res, texts(deleted@), 2)),
                    None => None,
                },
                log: old(self)@.log.push(delete_message(deleted.len() as nat, failed as nat)),
                ..old(self)@
            }),
    {
        if deleted.len() == 0 {
            return;
        }
        match self.result.take() {
            None => {},
            Some(res) => {
                let (res2, _lost) = prune_result(res, deleted, 2);
                self.result = Some(res2);
            },
        }
        let mut line = concat("[삭제 완료] ", &decimal_chars(deleted.len() as u64));
        line.append("개 성공");
        if failed > 0 {
            let tail = concat(" / ", &decimal_chars(failed as u64));
            line.append(tail.as_str());
            line.append("개 실패");
        }
        assert(line@ =~= delete_message(deleted.len() as nat, failed as nat));
        let ghost l0 = texts(self.log@);
        self.log.push(line);
        assert(texts(self.log@) =~= l0.push(delete_message(deleted.len() as nat, failed as nat)));
    }
}

proof fn lemma_first_non_dir_prefix(paths: Seq<Seq<char>>, is_dir: Seq<bool>, n: int)
    requires
        0 < n <= paths.len(),
        paths.len() == is_dir.len(),
        first_non_dir(paths.take(n), is_dir.take(n)) is Some,
    ensures
        first_non_dir(paths, is_dir) == first_non_dir(paths.take(n), is_dir.take(n)),
    decreases paths.len(),
{
    if n < paths.len() {
        assert(paths.drop_last().take(n) =~= paths.take(n));
        assert(is_dir.take(paths.len() - 1).take(n) =~= is_dir.take(n));
        lemma_first_non_dir_prefix(paths.drop_last(), is_dir.take(paths.len() - 1), n);
    } else {
        assert(paths.take(n) =~= paths);
        assert(is_dir.take(n) =~= is_dir);
    }
}

/// Whether a path asked to be deleted is deleted at all: members of archives
/// (`archive::member`) are left alone.
pub fn deletable(path: &str) -> (r: bool)
    ensures
        r == !crate::paths::is_member_path(path@),
{
    !crate::paths::is_archive_member(path)
}


/// The log never grows past 500 lines, and the line just logged is its last.
pub proof fn law_log_capped(log: Seq<Seq<char>>, msg: Seq<char>)
    requires
        log.len() <= 500,
    ensures
        capped_push(log, msg).len() <= 500,
        capped_push(log, msg).last() == msg,
{
}

proof fn lemma_kept_files(files: Seq<FileEntryView>, removed: Seq<Seq<char>>)
    ensures
        forall|i: int| 0 <= i < kept_files(files, removed).len() ==> !removed.contains(#[trigger] kept_files(files, removed)[i].path),
        kept_files(kept_files(files, removed), removed) == kept_files(files, removed),
    decreases files.len(),
{
    if files.len() > 0 {
        lemma_kept_files(files.drop_last(), removed);
        let k0 = kept_files(files.drop_last(), removed);
        if !removed.contains(files.last().path) {
            let k = k0.push(files.last());
            assert(k.drop_last() =~= k0);
            assert forall|i: int| 0 <= i < k.len() implies !removed.contains(#[trigger] k[i].path) by {
                if i < k0.len() {
                    assert(k[i] == k0[i]);
                }
            }
        }
    }
}

/// After files are taken out of the groups, no group lists one of them, and
/// every group kept has at least `min_files` files.
pub proof fn law_pruned_groups_clean(gs: Seq<GroupView>, removed: Seq<Seq<char>>, min_files: nat)
    ensures
        forall|g: int| 0 <= g < pruned(gs, removed, min_files).len() ==>
            (#[trigger] pruned(gs, removed, min_files)[g]).files.len() >= min_files,
        forall|g: int, i: int| 0 <= g < pruned(gs, removed, min_files).len()
            && 0 <= i < pruned(gs, removed, min_files)[g].files.len()
            ==> !removed.contains(#[trigger] pruned(gs, removed, min_files)[g].files[i].path),
    decreases gs.len(),
{
    if gs.len() > 0 {
        law_pruned_groups_clean(gs.drop_last(), removed, min_files);
        lemma_kept_files(gs.last().files, removed);
    }
}

/// Taking the same files out twice changes nothing the second time.
pub proof fn law_prune_idempotent(gs: Seq<GroupView>, removed: Seq<Seq<char>>, min_files: nat)
    ensures
        pruned(pruned(gs, removed, min_files), removed, min_files) == pruned(gs, removed, min_files),
    decreases gs.len(),
{
    if gs.len() > 0 {
        law_prune_idempotent(gs.drop_last(), removed, min_files);
        let p0 = pruned(gs.drop_last(), removed, min_files);
        let g = gs.last();
        let k = kept_files(g.files, removed);
        lemma_kept_files(g.files, removed);
        if k.len() >= min_files {
            let p = p0.push(GroupView { files: k, ..g });
            assert(p.drop_last() =~= p0);
        }
    }
}

} // verus!
