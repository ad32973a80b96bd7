//! Download progress: what is reported, what a listener keeps of it, and when
//! a download is to be interrupted.

use crate::path::CachePath;
use vstd::prelude::*;
#[allow(unused_imports)]
use vstd::string::*;

verus! {

/// How far a file has come.
#[derive(Debug, Clone, Copy, PartialEq, Eq, Structural)]
pub enum FileStatus {
    /// The download of the file has begun.
    Started,
    /// Bytes of the file are arriving.
    InProgress,
    /// The file is complete.
    Complete,
}

/// The progress of one file.
#[derive(Debug)]
pub struct FileProgress {
    /// Name of the file in the repository.
    pub filename: String,
    /// Bytes that are there.
    pub bytes_completed: u64,
    /// Bytes that the file has in all.
    pub total_bytes: u64,
    /// How far the file has come.
    pub status: FileStatus,
}

/// What is reported of a download.
#[derive(Debug)]
pub enum DownloadEvent {
    /// The download begins.
    Start { total_bytes: u64 },
    /// Some files have moved on.
    Progress { files: Vec<FileProgress> },
    /// The download is over.
    Complete,
}

/// What is reported of a transfer.
#[derive(Debug)]
pub enum ProgressEvent {
    /// Of a download.
    Download(DownloadEvent),
    /// Of an upload, which no listener here looks at.
    Upload,
}

impl Clone for FileProgress {
    fn clone(&self) -> (copy: FileProgress)
        ensures
            copy == *self,
    {
        FileProgress {
            filename: self.filename.clone(),
            bytes_completed: self.bytes_completed,
            total_bytes: self.total_bytes,
            status: self.status,
        }
    }
}

/// A copy of a report.
fn copy_files(files: &Vec<FileProgress>) -> (copy: Vec<FileProgress>)
    ensures
        copy@ == files@,
{
    let mut copy: Vec<FileProgress> = Vec::new();
    let mut i: usize = 0;
    while i < files.len()
        invariant
            i <= files@.len(),
            copy@ == files@.take(i as int),
        decreases files.len() - i,
    {
        copy.push(files[i].clone());
        i += 1;
        assert(files@.take(i as int) =~= files@.take(i - 1).push(files@[i - 1]));
    }
    assert(files@.take(i as int) =~= files@);
    copy
}

/// What a listener has kept.
#[verifier::ext_equal]
pub struct EventsModel {
    /// Every file report, in the order of arrival.
    pub files: Seq<FileProgress>,
    /// The size that was announced last.
    pub total: Option<u64>,
    /// The first progress report.
    pub initial: Option<Seq<FileProgress>>,
}

/// A listener that has heard nothing.
pub open spec fn silence() -> EventsModel {
    EventsModel { files: Seq::empty(), total: None, initial: None }
}

/// What a listener keeps after one more event.
pub open spec fn heard(before: EventsModel, event: ProgressEvent) -> EventsModel {
    match event {
        ProgressEvent::Download(DownloadEvent::Progress { files }) => EventsModel {
            files: before.files + files@,
            total: before.total,
            initial: if before.initial is Some {
                before.initial
            } else {
                Some(files@)
            },
        },
        ProgressEvent::Download(DownloadEvent::Start { total_bytes }) => EventsModel {
            total: Some(total_bytes),
            ..before
        },
        _ => before,
    }
}

/// What a new listener keeps of `events`.
pub open spec fn heard_all(events: Seq<ProgressEvent>) -> EventsModel
    decreases events.len(),
{
    if events.len() == 0 {
        silence()
    } else {
        heard(heard_all(events.drop_last()), events.last())
    }
}

/// The file reports that an event carries.
pub open spec fn reports_in(event: ProgressEvent) -> Seq<FileProgress> {
    match event {
        ProgressEvent::Download(DownloadEvent::Progress { files }) => files@,
        _ => Seq::empty(),
    }
}

/// Whether an event is a progress report of a download.
pub open spec fn is_progress(event: ProgressEvent) -> bool {
    event matches ProgressEvent::Download(DownloadEvent::Progress { .. })
}

/// A listener that keeps all file reports of a download.
#[derive(Debug)]
pub struct Events {
    /// Every file report, in the order of arrival.
    pub files: Vec<FileProgress>,
    /// The size that was announced last.
    pub total: Option<u64>,
    /// The first progress report.
    pub initial: Option<Vec<FileProgress>>,
}

impl View for Events {
    type V = EventsModel;

    open spec fn view(&self) -> EventsModel {
        EventsModel {
            files: self.files@,
            total: self.total,
            initial: match self.initial {
                Some(files) => Some(files@),
                None => None,
            },
        }
    }
}

impl Default for Events {
    fn default() -> (events: Events)
        ensures
            events@ == silence(),
    {
        Events { files: Vec::new(), total: None, initial: None }
    }
}

impl Events {
    /// Takes an event in, and says whether those who wait for file reports are
    /// to be woken.
    pub fn on_progress(&mut self, event: &ProgressEvent) -> (wake: bool)
        ensures
            final(self)@ == heard(old(self)@, *event),
            final(self).files@ == old(self).files@ + reports_in(*event),
            wake == is_progress(*event),
    {
        match event {
            ProgressEvent::Download(DownloadEvent::Progress { files }) => {
                if self.initial.is_none() {
                    self.initial = Some(copy_files(files));
                }
                let mut more: Vec<FileProgress> = copy_files(files);
                self.files.append(&mut more);
                true
            },
            ProgressEvent::Download(DownloadEvent::Start { total_bytes }) => {
                self.total = Some(*total_bytes);
                assert(self.files@ =~= old(self).files@ + reports_in(*event));
                false
            },
            _ => {
                assert(self.files@ =~= old(self).files@ + reports_in(*event));
                false
            },
        }
    }
}

/// Nothing that a listener has kept is lost: later events only add file
/// reports, and the first progress report stays.
pub proof fn listeners_forget_nothing(events: Seq<ProgressEvent>, n: int)
    requires
        0 <= n <= events.len(),
    ensures
        heard_all(events.take(n)).files.is_prefix_of(heard_all(events).files),
        heard_all(events.take(n)).initial is Some ==> heard_all(events).initial == heard_all(
            events.take(n),
        ).initial,
        heard_all(events.take(n)).total is Some ==> heard_all(events).total is Some,
    decreases events.len() - n,
{
    if n < events.len() {
        listeners_forget_nothing(events, n + 1);
        assert(events.take(n + 1).drop_last() =~= events.take(n));
        let here = heard_all(events.take(n)).files;
        let next = heard_all(events.take(n + 1)).files;
        let all = heard_all(events).files;
        assert(here =~= next.subrange(0, here.len() as int));
        assert(here =~= all.subrange(0, here.len() as int));
    } else {
        assert(events.take(n) =~= events);
    }
}

/// The report that is kept as the first one is that of the earliest progress
/// event.
pub proof fn the_first_report_is_the_earliest(events: Seq<ProgressEvent>, n: int)
    requires
        0 <= n < events.len(),
        is_progress(events[n]),
        forall|i: int| 0 <= i < n ==> !is_progress(#[trigger] events[i]),
    ensures
        events[n] matches ProgressEvent::Download(DownloadEvent::Progress { files })
            && heard_all(events).initial == Some(files@),
{
    lemma_no_report_yet(events.take(n));
    assert(events.take(n + 1).drop_last() =~= events.take(n));
    listeners_forget_nothing(events, n + 1);
}

proof fn lemma_no_report_yet(events: Seq<ProgressEvent>)
    requires
        forall|i: int| 0 <= i < events.len() ==> !is_progress(#[trigger] events[i]),
    ensures
        heard_all(events).initial is None,
    decreases events.len(),
{
    if events.len() > 0 {
        let before = events.drop_last();
        assert forall|i: int| 0 <= i < before.len() implies !is_progress(#[trigger] before[i]) by {
            assert(!is_progress(events[i]));
        }
        lemma_no_report_yet(before);
        assert(!is_progress(events[events.len() - 1]));
    }
}

/// Whether an event reports a file of which bytes are arriving.
pub open spec fn shows_arrival(event: ProgressEvent) -> bool {
    event matches ProgressEvent::Download(DownloadEvent::Progress { files }) && exists|i: int|
        0 <= i < files@.len() && (#[trigger] files@[i]).status == FileStatus::InProgress
            && files@[i].bytes_completed > 0
}

/// Decides [`shows_arrival`].
pub fn reports_arrival(event: &ProgressEvent) -> (found: bool)
    ensures
        found == shows_arrival(*event),
{
    match event {
        ProgressEvent::Download(DownloadEvent::Progress { files }) => {
            let mut i: usize = 0;
            while i < files.len()
                invariant
                    i <= files@.len(),
                    *event == ProgressEvent::Download(DownloadEvent::Progress { files: *files }),
                    forall|j: int|
                        0 <= j < i ==> !((#[trigger] files@[j]).status == FileStatus::InProgress
                            && files@[j].bytes_completed > 0),
                decreases files.len() - i,
            {
                if files[i].status == FileStatus::InProgress && files[i].bytes_completed > 0 {
                    return true;
                }
                i += 1;
            }
            false
        },
        _ => false,
    }
}

/// Whether more than `retained` bytes have been written, given the length of
/// the partial file if there is one.
pub open spec fn grown(written: Option<u64>, retained: u64) -> bool {
    written matches Some(length) && length > retained
}

/// The status with which an interrupted process exits.
pub const INTERRUPTED: i32 = 87;

/// Ends the process once the partial file has grown.
#[derive(Debug)]
pub struct ExitAfterWrite {
    /// The partial file.
    pub partial: CachePath,
    /// Its length at the start.
    pub retained: u64,
}

impl ExitAfterWrite {
    /// The status to exit with, if the process is to end on this event.
    /// `written` is the length of the partial file, if there is one.
    pub fn on_progress(&self, event: &ProgressEvent, written: Option<u64>) -> (status: Option<i32>)
        ensures
            status == if shows_arrival(*event) && grown(written, self.retained) {
                Some(INTERRUPTED)
            } else {
                None
            },
    {
        match written {
            Some(length) => if length > self.retained && reports_arrival(event) {
                Some(INTERRUPTED)
            } else {
                None
            },
            None => None,
        }
    }
}

/// Aborts the download once anything has been written.
#[derive(Debug)]
pub struct AbortAfterWrite {
    /// The partial file.
    pub partial: CachePath,
}

impl AbortAfterWrite {
    /// Whether to abort on this event. `written` is the length of the partial
    /// file, if there is one.
    pub fn on_progress(&self, event: &ProgressEvent, written: Option<u64>) -> (abort: bool)
        ensures
            abort == (shows_arrival(*event) && grown(written, 0)),
    {
        match written {
            Some(length) => length > 0 && reports_arrival(event),
            None => false,
        }
    }
}

/// What a listener keeps of one more event, whatever it has kept before: every
/// file report of the event goes behind those that are there, in its order; the
/// first progress report is kept if there was none; a start announces its size;
/// nothing else changes.
pub proof fn one_more_event_is_kept_whole(before: EventsModel, event: ProgressEvent)
    ensures
        heard(before, event).files == before.files + reports_in(event),
        heard(before, event).total == match event {
            ProgressEvent::Download(DownloadEvent::Start { total_bytes }) => Some(total_bytes),
            _ => before.total,
        },
        heard(before, event).initial == match event {
            ProgressEvent::Download(DownloadEvent::Progress { files }) if before.initial
                is None => Some(files@),
            _ => before.initial,
        },
        is_progress(event) <==> event matches ProgressEvent::Download(
            DownloadEvent::Progress { .. },
        ),
{
    assert(before.files + Seq::<FileProgress>::empty() =~= before.files);
}

/// What a listener has kept after a sequence of events is the file lists of all
/// progress events, one behind the other.
pub proof fn listeners_keep_every_report(events: Seq<ProgressEvent>)
    ensures
        heard_all(events).files == events.map_values(
            |event: ProgressEvent| reports_in(event),
        ).flatten(),
    decreases events.len(),
{
    let parts = events.map_values(|event: ProgressEvent| reports_in(event));
    if events.len() > 0 {
        let before = events.drop_last();
        listeners_keep_every_report(before);
        one_more_event_is_kept_whole(heard_all(before), events.last());
        let earlier = before.map_values(|event: ProgressEvent| reports_in(event));
        assert(parts =~= earlier.push(reports_in(events.last())));
        earlier.lemma_flatten_push(reports_in(events.last()));
    } else {
        assert(parts =~= Seq::empty());
    }
}

/// Every file of every progress event is among the reports that are kept.
pub proof fn no_report_is_lost(
    events: Seq<ProgressEvent>,
    n: int,
    files: Vec<FileProgress>,
    k: int,
)
    requires
        0 <= n < events.len(),
        events[n] == ProgressEvent::Download(DownloadEvent::Progress { files }),
        0 <= k < files@.len(),
    ensures
        heard_all(events).files.contains(files@[k]),
{
    let here = heard_all(events.take(n));
    let next = heard_all(events.take(n + 1));
    assert(events.take(n + 1).drop_last() =~= events.take(n));
    one_more_event_is_kept_whole(here, events[n]);
    assert(next.files[here.files.len() + k] == files@[k]);
    listeners_forget_nothing(events, n + 1);
    assert(heard_all(events).files[here.files.len() + k] == files@[k]);
}

/// The size that a listener knows is the one that was announced last.
pub proof fn the_last_start_announces_the_size(events: Seq<ProgressEvent>, n: int, size: u64)
    requires
        0 <= n < events.len(),
        events[n] == ProgressEvent::Download(DownloadEvent::Start { total_bytes: size }),
        forall|m: int|
            n < m < events.len() ==> !((#[trigger] events[m]) matches ProgressEvent::Download(
                DownloadEvent::Start { .. },
            )),
    ensures
        heard_all(events).total == Some(size),
    decreases events.len(),
{
    let before = events.drop_last();
    one_more_event_is_kept_whole(heard_all(before), events.last());
    if n < events.len() - 1 {
        assert forall|m: int| n < m < before.len() implies !((
        #[trigger] before[m]) matches ProgressEvent::Download(DownloadEvent::Start { .. })) by {
            assert(before[m] == events[m]);
        }
        the_last_start_announces_the_size(before, n, size);
        assert(events.last() == events[events.len() - 1]);
    }
}

/// A new listener has kept nothing.
pub proof fn new_listeners_have_kept_nothing()
    ensures
        heard_all(Seq::empty()).files.len() == 0,
        heard_all(Seq::empty()).total is None,
        heard_all(Seq::empty()).initial is None,
        silence() == heard_all(Seq::empty()),
{
}

/// A listener shows what its fields hold.
pub proof fn listeners_show_their_fields(events: Events)
    ensures
        events@.files == events.files@,
        events@.total == events.total,
        events@.initial is Some <==> events.initial is Some,
        events.initial matches Some(files) ==> events@.initial == Some(files@),
{
}

/// An event shows bytes arriving exactly if one of its file reports, wherever
/// it stands, is in progress and has a byte.
pub proof fn any_report_can_show_arrival(event: ProgressEvent)
    ensures
        shows_arrival(event) <==> exists|k: int|
            0 <= k < reports_in(event).len() && (#[trigger] reports_in(event)[k]).status
                == FileStatus::InProgress && reports_in(event)[k].bytes_completed >= 1,
{
}

/// A partial file has grown exactly if it is there and has at least one byte
/// more than it had.
pub proof fn growing_takes_one_byte(written: Option<u64>, retained: u64)
    ensures
        grown(written, retained) <==> written is Some && written->0 >= retained + 1,
{
}

} // verus!
